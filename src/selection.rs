//! Fitness-proportionate selection: a table of cumulative weights, searched
//! by bisection for a uniform draw below the total.

use crate::random::draw_below;
use rand::rngs::StdRng;
use vstd::prelude::*;

verus! {

/// The sum of `w`.
pub open spec fn total(w: Seq<int>) -> int
    decreases w.len(),
{
    if w.len() == 0 {
        0
    } else {
        total(w.drop_last()) + w.last()
    }
}

/// `w` read as integers.
pub open spec fn as_ints(w: Seq<u64>) -> Seq<int> {
    w.map_values(|x: u64| x as int)
}

/// No prefix of a sequence of non-negative numbers sums to more than the whole.
pub proof fn lemma_prefix_total_le(w: Seq<int>, i: int)
    requires
        0 <= i <= w.len(),
        forall|k: int| 0 <= k < w.len() ==> #[trigger] w[k] >= 0,
    ensures
        total(w.take(i)) <= total(w),
    decreases w.len(),
{
    if i < w.len() {
        assert(w.drop_last().take(i) =~= w.take(i));
        lemma_prefix_total_le(w.drop_last(), i);
    } else {
        assert(w.take(i) =~= w);
    }
}

proof fn lemma_take_succ(w: Seq<int>, i: int)
    requires
        0 <= i < w.len(),
    ensures
        total(w.take(i + 1)) == total(w.take(i)) + w[i],
{
    assert(w.take(i + 1).drop_last() =~= w.take(i));
}

/// A weighted choice among `0, ..., n - 1`: index `i` comes with probability
/// `weights[i] / total`.
pub struct WeightedChoice {
    cumulative: Vec<u64>,
    weights: Ghost<Seq<int>>,
}

impl WeightedChoice {
    #[verifier::type_invariant]
    spec fn consistent(self) -> bool {
        &&& self.cumulative@.len() == self.weights@.len()
        &&& self.weights@.len() > 0
        &&& total(self.weights@) > 0
        &&& forall|i: int|
            0 <= i < self.cumulative@.len() ==> #[trigger] self.cumulative@[i] == total(
                self.weights@.take(i + 1),
            )
    }

    /// The weights the table was built from.
    pub closed spec fn weights(self) -> Seq<int> {
        self.weights@
    }

    /// The table for `weights`; `None` when there is no weight, when they sum
    /// to zero, or when their sum does not fit in a `u64`.
    pub fn new(weights: &Vec<u64>) -> (r: Option<WeightedChoice>)
        ensures
            r is Some <==> weights@.len() > 0 && 0 < total(as_ints(weights@)) <= u64::MAX,
            r matches Some(c) ==> c.weights() == as_ints(weights@),
    {
        let ghost w = as_ints(weights@);
        let mut cumulative: Vec<u64> = Vec::new();
        let mut acc: u64 = 0;
        let mut i: usize = 0;
        while i < weights.len()
            invariant
                i <= weights@.len(),
                w == as_ints(weights@),
                acc == total(w.take(i as int)),
                cumulative@.len() == i,
                forall|k: int| 0 <= k < i ==> #[trigger] cumulative@[k] == total(w.take(k + 1)),
            decreases weights@.len() - i,
        {
            proof {
                lemma_take_succ(w, i as int);
            }
            match acc.checked_add(weights[i]) {
                Some(next) => {
                    acc = next;
                },
                None => {
                    proof {
                        lemma_prefix_total_le(w, i + 1);
                    }
                    return None;
                },
            }
            cumulative.push(acc);
            i += 1;
        }
        proof {
            assert(w.take(i as int) =~= w);
        }
        if acc == 0 {
            return None;
        }
        Some(WeightedChoice { cumulative, weights: Ghost(w) })
    }

    /// The sum of the weights.
    pub fn total_weight(&self) -> (r: u64)
        ensures
            r == total(self.weights()),
            r > 0,
    {
        proof {
            use_type_invariant(self);
            assert(self.weights@.take(self.weights@.len() as int) =~= self.weights@);
        }
        self.cumulative[self.cumulative.len() - 1]
    }

    /// The index whose share of `[0, total)` holds `draw`: the `i` with
    /// `weights[0] + ... + weights[i - 1] <= draw < weights[0] + ... + weights[i]`.
    pub fn pick(&self, draw: u64) -> (r: usize)
        requires
            draw < total(self.weights()),
        ensures
            r < self.weights().len(),
            total(self.weights().take(r as int)) <= draw < total(self.weights().take(r + 1)),
            self.weights()[r as int] > 0,
    {
        proof {
            use_type_invariant(self);
            assert(self.weights@.take(self.weights@.len() as int) =~= self.weights@);
        }
        let mut lo: usize = 0;
        let mut hi: usize = self.cumulative.len() - 1;
        while lo < hi
            invariant
                lo <= hi < self.cumulative@.len(),
                self.cumulative@[hi as int] > draw,
                lo == 0 || self.cumulative@[lo - 1] <= draw,
            decreases hi - lo,
        {
            let mid = lo + (hi - lo) / 2;
            if self.cumulative[mid] > draw {
                hi = mid;
            } else {
                lo = mid + 1;
            }
        }
        proof {
            lemma_take_succ(self.weights@, lo as int);
            if lo == 0 {
                assert(self.weights@.take(0) =~= Seq::<int>::empty());
            }
        }
        lo
    }

    /// Draws an index with probability proportional to its weight.
    pub fn sample(&self, rng: &mut StdRng) -> (r: usize)
        ensures
            r < self.weights().len(),
            self.weights()[r as int] > 0,
    {
        let total = self.total_weight();
        let draw = draw_below(rng, total);
        self.pick(draw)
    }
}

} // verus!
