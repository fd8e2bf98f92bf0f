//! The random draws that the generator makes from its seeded generator.

use rand::rngs::StdRng;
use rand::Rng;
use vstd::prelude::*;

verus! {

/// `rand::rngs::StdRng`, the seeded generator from which every random choice
/// of a maze is drawn. Verus sees nothing inside it.
#[verifier::external_type_specification]
#[verifier::external_body]
pub struct ExStdRng(StdRng);

/// A range that was handed to the generator.
pub enum DrawRange {
    /// The half-open range `low..high`.
    HalfOpen { low: usize, high: usize },
    /// The inclusive range `low..=high`.
    Inclusive { low: usize, high: usize },
}

/// A seeded generator, together with a ghost record of every range handed to
/// it through `below` and `through` and of every value that came back.
pub struct Draws {
    rng: StdRng,
    ranges: Ghost<Seq<DrawRange>>,
    values: Ghost<Seq<usize>>,
}

impl Draws {
    /// The ranges handed to the generator since it was wrapped, in order.
    pub closed spec fn requests(&self) -> Seq<DrawRange> {
        self.ranges@
    }

    /// The values drawn since the generator was wrapped, in order.
    pub closed spec fn values(&self) -> Seq<usize> {
        self.values@
    }

    /// Wraps a generator; nothing has been drawn through the wrapper yet.
    pub fn new(rng: StdRng) -> (draws: Self)
        ensures
            draws.requests() == Seq::<DrawRange>::empty(),
            draws.values() == Seq::<usize>::empty(),
    {
        Draws { rng, ranges: Ghost(Seq::empty()), values: Ghost(Seq::empty()) }
    }

    /// Calls `rand::Rng::random_range` on the half-open range `low..high` of
    /// `usize`, and records the range and the value drawn. rand documents that
    /// the sample lies in the range and that the call panics only when the
    /// range is empty; which value comes out depends on the generator's state
    /// and is not stated.
    #[verifier::external_body]
    pub fn below(&mut self, low: usize, high: usize) -> (value: usize)
        requires
            low < high,
        ensures
            low <= value < high,
            final(self).requests() == old(self).requests().push(DrawRange::HalfOpen { low, high }),
            final(self).values() == old(self).values().push(value),
    {
        self.rng.random_range(low..high)
    }

    /// Calls `rand::Rng::random_range` on the inclusive range `low..=high` of
    /// `usize`, and records the range and the value drawn. rand documents that
    /// the sample lies in the range and that the call panics only when the
    /// range is empty; which value comes out depends on the generator's state
    /// and is not stated.
    #[verifier::external_body]
    pub fn through(&mut self, low: usize, high: usize) -> (value: usize)
        requires
            low <= high,
        ensures
            low <= value <= high,
            final(self).requests() == old(self).requests().push(DrawRange::Inclusive { low, high }),
            final(self).values() == old(self).values().push(value),
    {
        self.rng.random_range(low..=high)
    }
}

} // verus!
