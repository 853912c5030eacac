//! A seeded, injectable source of randomness and weighted selection.
//!
//! Derivation is reproducible: the caller seeds the generator, and every
//! stochastic choice is a pure function of the evolving generator state.

use vstd::prelude::*;

verus! {

/// One step of the linear congruential generator.
pub open spec fn lcg_next(s: u64) -> u64 {
    ((s * 6364136223846793005 + 1442695040888963407) % 0x10000000000000000) as u64
}

/// A seeded linear congruential generator.
#[derive(Debug, Clone)]
pub struct Lcg {
    state: u64,
}

impl Lcg {
    /// The current state.
    pub closed spec fn state_of(&self) -> u64 {
        self.state
    }

    /// Creates a generator from a seed.
    pub fn new(seed: u64) -> (r: Self)
        ensures
            r.state_of() == seed,
    {
        Lcg { state: seed }
    }

    /// Advances the state once and returns it.
    pub fn next(&mut self) -> (r: u64)
        ensures
            final(self).state_of() == lcg_next(old(self).state_of()),
            r == final(self).state_of(),
    {
        let wide: u128 = (self.state as u128) * 6364136223846793005u128 + 1442695040888963407u128;
        proof {
            assert((self.state as u128) * 6364136223846793005u128 + 1442695040888963407u128
                <= u128::MAX) by (nonlinear_arith)
                requires
                    self.state <= u64::MAX,
            ;
        }
        let next = (wide % 0x10000000000000000u128) as u64;
        self.state = next;
        next
    }

    /// Draws a value below `bound` from the next state.
    pub fn draw_below(&mut self, bound: u64) -> (r: u64)
        requires
            bound > 0,
        ensures
            final(self).state_of() == lcg_next(old(self).state_of()),
            r == lcg_next(old(self).state_of()) % bound,
            r < bound,
    {
        let v = self.next();
        v % bound
    }
}

/// The sum of the weights.
pub open spec fn total_weight(ws: Seq<u32>) -> int
    decreases ws.len(),
{
    if ws.len() == 0 {
        0
    } else {
        ws[0] + total_weight(ws.drop_first())
    }
}

/// The index that a draw selects: weights partition `[0, total)` into
/// consecutive intervals, and the draw falls into exactly one of them, so a
/// rule is selected with probability proportional to its weight. A weight of
/// zero is an empty interval and is never selected.
pub open spec fn pick_from(ws: Seq<u32>, i: int, rem: int) -> int
    decreases ws.len() - i,
{
    if i < 0 || i >= ws.len() {
        ws.len() as int
    } else if rem < ws[i] {
        i
    } else {
        pick_from(ws, i + 1, rem - ws[i])
    }
}

/// The partial sum of `ws[i..]`.
pub open spec fn weight_from(ws: Seq<u32>, i: int) -> int
    decreases ws.len() - i,
{
    if i < 0 || i >= ws.len() {
        0
    } else {
        ws[i] + weight_from(ws, i + 1)
    }
}

/// A draw below the total always lands on an index with positive weight.
pub proof fn lemma_pick_in_range(ws: Seq<u32>, i: int, rem: int)
    requires
        0 <= i <= ws.len(),
        0 <= rem < weight_from(ws, i),
    ensures
        i <= pick_from(ws, i, rem) < ws.len(),
        ws[pick_from(ws, i, rem)] > 0,
    decreases ws.len() - i,
{
    if i < ws.len() {
        if rem < ws[i] {
        } else {
            lemma_pick_in_range(ws, i + 1, rem - ws[i]);
        }
    }
}

/// Selects the index whose weight interval contains `draw`.
pub fn weighted_choice(ws: &Vec<u32>, draw: u64) -> (idx: usize)
    requires
        0 <= (draw as int) < weight_from(ws@, 0),
    ensures
        idx == pick_from(ws@, 0, draw as int),
        idx < ws@.len(),
        ws@[idx as int] > 0,
    {
    proof {
        lemma_pick_in_range(ws@, 0, draw as int);
    }
    let n = ws.len();
    let mut i: usize = 0;
    let mut rem: u64 = draw;
    loop
        invariant
            n == ws@.len(),
            0 <= i <= ws@.len(),
            0 <= (rem as int) < weight_from(ws@, i as int),
            pick_from(ws@, i as int, rem as int) == pick_from(ws@, 0, draw as int),
        decreases ws@.len() - i,
    {
        proof {
            lemma_pick_in_range(ws@, i as int, rem as int);
        }
        let w = ws[i];
        if rem < w as u64 {
            return i;
        }
        rem = rem - w as u64;
        i = i + 1;
    }
}

} // verus!
