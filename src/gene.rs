//! The chromosome: an ordering of the palette's indices, with the operators
//! that reorder it.

use crate::probs::{is_step_of, Probs, PROB_SCALE};
use crate::random::{draw_below, shuffle};
use rand::rngs::StdRng;
use vstd::prelude::*;
use vstd::seq_lib::lemma_multiset_commutative;

verus! {

broadcast use vstd::seq_lib::group_to_multiset_ensures;

/// `s` holds each of `0, ..., n - 1` exactly once.
pub open spec fn is_permutation(s: Seq<usize>, n: nat) -> bool {
    &&& s.len() == n
    &&& s.no_duplicates()
    &&& forall|i: int| 0 <= i < s.len() ==> #[trigger] s[i] < n
}

/// The identity ordering `0, 1, ..., n - 1`.
pub open spec fn identity(n: nat) -> Seq<usize> {
    Seq::new(n, |i: int| i as usize)
}

/// `s` with its window `[start, end)` rotated left by `k` places.
pub open spec fn rotated(s: Seq<usize>, start: int, end: int, k: int) -> Seq<usize> {
    s.subrange(0, start) + s.subrange(start + k, end) + s.subrange(start, start + k) + s.subrange(
        end,
        s.len() as int,
    )
}

/// `s` with its window `[start, end)` in reverse order.
pub open spec fn reversed(s: Seq<usize>, start: int, end: int) -> Seq<usize> {
    s.subrange(0, start) + s.subrange(start, end).reverse() + s.subrange(end, s.len() as int)
}

/// `s` with the values at positions `i` and `j` exchanged.
pub open spec fn swapped(s: Seq<usize>, i: int, j: int) -> Seq<usize> {
    s.update(i, s[j]).update(j, s[i])
}

/// Holds of the values that `w` does not contain.
pub open spec fn not_in(w: Seq<usize>) -> spec_fn(usize) -> bool {
    |x: usize| !w.contains(x)
}

/// The values of `p2`, in `p2`'s order, that are not in `p1`'s window `[start, end)`.
pub open spec fn outside_window(p1: Seq<usize>, p2: Seq<usize>, start: int, end: int) -> Seq<usize> {
    p2.filter(not_in(p1.subrange(start, end)))
}

/// `t` is `s` with a window of at least two places rotated left by less than
/// its length.
pub open spec fn is_rotation_of(s: Seq<usize>, t: Seq<usize>) -> bool {
    exists|start: int, end: int, k: int|
        0 <= start && start + 2 <= end <= s.len() && 0 < k < end - start && t == #[trigger] rotated(
            s,
            start,
            end,
            k,
        )
}

/// `t` is `s` with a window of at least two places rotated left by one place.
pub open spec fn is_unit_rotation_of(s: Seq<usize>, t: Seq<usize>) -> bool {
    exists|start: int, end: int|
        0 <= start && start + 2 <= end <= s.len() && t == #[trigger] rotated(s, start, end, 1)
}

/// `t` is `s` with a window of at least two places reversed.
pub open spec fn is_reversal_of(s: Seq<usize>, t: Seq<usize>) -> bool {
    exists|start: int, end: int|
        0 <= start && start + 2 <= end <= s.len() && t == #[trigger] reversed(s, start, end)
}

/// `t` is `s` with the values at two positions (perhaps the same one) exchanged.
pub open spec fn is_swap_of(s: Seq<usize>, t: Seq<usize>) -> bool {
    exists|i: int, j: int| 0 <= i < s.len() && 0 <= j < s.len() && t == #[trigger] swapped(s, i, j)
}

/// `t` is `s` after one of the three structural moves: a window rotated, a
/// window reversed, or two positions exchanged.
pub open spec fn is_one_move(s: Seq<usize>, t: Seq<usize>) -> bool {
    ||| is_rotation_of(s, t)
    ||| is_reversal_of(s, t)
    ||| is_swap_of(s, t)
}

/// The order-preserving crossover of `p1` and `p2` over `p1`'s window
/// `[start, end)`: the window stays where it is in `p1`, and the other values
/// fill the remaining places in the order they have in `p2`.
pub open spec fn crossover_order(p1: Seq<usize>, p2: Seq<usize>, start: int, end: int) -> Seq<
    usize,
> {
    let rest = outside_window(p1, p2, start, end);
    rest.take(start) + p1.subrange(start, end) + rest.skip(start)
}

/// Reordering keeps a permutation a permutation.
pub proof fn lemma_same_items_permutation(s: Seq<usize>, t: Seq<usize>, n: nat)
    requires
        is_permutation(s, n),
        t.to_multiset() == s.to_multiset(),
    ensures
        is_permutation(t, n),
{
    s.lemma_multiset_has_no_duplicates();
    t.lemma_multiset_has_no_duplicates_conv();
    assert(t.len() == t.to_multiset().len());
    assert(s.len() == s.to_multiset().len());
    assert forall|i: int| 0 <= i < t.len() implies #[trigger] t[i] < n by {
        assert(t.contains(t[i]));
        assert(t.to_multiset().count(t[i]) > 0);
        assert(s.to_multiset().count(t[i]) > 0);
        assert(s.contains(t[i]));
    }
}

/// A permutation of `0, ..., n - 1` holds every value below `n`.
pub proof fn lemma_permutation_covers(s: Seq<usize>, n: usize)
    requires
        is_permutation(s, n as nat),
    ensures
        forall|v: usize| v < n ==> s.contains(v),
{
    broadcast use vstd::set_lib::range_set_properties;

    let all = Set::<usize>::range(0, n);
    s.unique_seq_to_set();
    assert(s.to_set().subset_of(all)) by {
        assert forall|v: usize| s.to_set().contains(v) implies all.contains(v) by {
            let i = choose|i: int| 0 <= i < s.len() && s[i] == v;
            assert(s[i] < n);
        }
    }
    vstd::set_lib::lemma_subset_equality(s.to_set(), all);
    assert forall|v: usize| v < n implies s.contains(v) by {
        assert(all.contains(v));
    }
}

/// Rotating a window keeps a permutation a permutation.
pub proof fn lemma_rotated_permutation(s: Seq<usize>, start: int, end: int, k: int, n: nat)
    requires
        is_permutation(s, n),
        0 <= start <= start + k <= end <= s.len(),
    ensures
        is_permutation(rotated(s, start, end, k), n),
{
    let a = s.subrange(0, start);
    let b = s.subrange(start, start + k);
    let c = s.subrange(start + k, end);
    let d = s.subrange(end, s.len() as int);
    let t = rotated(s, start, end, k);
    assert(s =~= a + b + c + d);
    assert(t =~= a + c + b + d);
    lemma_multiset_commutative(a + b + c, d);
    lemma_multiset_commutative(a + b, c);
    lemma_multiset_commutative(a, b);
    lemma_multiset_commutative(a + c + b, d);
    lemma_multiset_commutative(a + c, b);
    lemma_multiset_commutative(a, c);
    assert(t.to_multiset() =~= s.to_multiset());
    lemma_same_items_permutation(s, t, n);
}

/// Reversing a window keeps a permutation a permutation.
pub proof fn lemma_reversed_permutation(s: Seq<usize>, start: int, end: int, n: nat)
    requires
        is_permutation(s, n),
        0 <= start <= end <= s.len(),
    ensures
        is_permutation(reversed(s, start, end), n),
{
    let a = s.subrange(0, start);
    let b = s.subrange(start, end);
    let d = s.subrange(end, s.len() as int);
    let t = reversed(s, start, end);
    assert(s =~= a + b + d);
    b.lemma_reverse_to_multiset();
    lemma_multiset_commutative(a + b, d);
    lemma_multiset_commutative(a, b);
    lemma_multiset_commutative(a + b.reverse(), d);
    lemma_multiset_commutative(a, b.reverse());
    assert(t.to_multiset() =~= s.to_multiset());
    lemma_same_items_permutation(s, t, n);
}

/// Exchanging two positions keeps a permutation a permutation.
pub proof fn lemma_swapped_permutation(s: Seq<usize>, i: int, j: int, n: nat)
    requires
        is_permutation(s, n),
        0 <= i < s.len(),
        0 <= j < s.len(),
    ensures
        is_permutation(swapped(s, i, j), n),
{
    let t = swapped(s, i, j);
    assert forall|x: int, y: int| 0 <= x < t.len() && 0 <= y < t.len() && x != y implies t[x]
        != t[y] by {
        let sx = if x == i { j } else if x == j { i } else { x };
        let sy = if y == i { j } else if y == j { i } else { y };
        assert(t[x] == s[sx]);
        assert(t[y] == s[sy]);
    }
    assert forall|x: int| 0 <= x < t.len() implies #[trigger] t[x] < n by {
        let sx = if x == i { j } else if x == j { i } else { x };
        assert(t[x] == s[sx]);
    }
}

/// Every structural mutation keeps a permutation a permutation.
pub proof fn lemma_one_move_permutation(s: Seq<usize>, t: Seq<usize>, n: nat)
    requires
        is_permutation(s, n),
        is_one_move(s, t),
    ensures
        is_permutation(t, n),
{
    if exists|start: int, end: int, k: int|
        0 <= start && start + 2 <= end <= s.len() && 0 < k < end - start && t == #[trigger] rotated(
            s,
            start,
            end,
            k,
        ) {
        let (start, end, k) = choose|start: int, end: int, k: int|
            0 <= start && start + 2 <= end <= s.len() && 0 < k < end - start && t
                == #[trigger] rotated(s, start, end, k);
        lemma_rotated_permutation(s, start, end, k, n);
    } else if exists|start: int, end: int|
        0 <= start && start + 2 <= end <= s.len() && t == #[trigger] reversed(s, start, end) {
        let (start, end) = choose|start: int, end: int|
            0 <= start && start + 2 <= end <= s.len() && t == #[trigger] reversed(s, start, end);
        lemma_reversed_permutation(s, start, end, n);
    } else {
        let (i, j) = choose|i: int, j: int|
            0 <= i < s.len() && 0 <= j < s.len() && t == #[trigger] swapped(s, i, j);
        lemma_swapped_permutation(s, i, j, n);
    }
}

/// How often `x` occurs among the values of `s` that `keep` holds of.
proof fn lemma_filter_count(s: Seq<usize>, keep: spec_fn(usize) -> bool, x: usize)
    ensures
        s.filter(keep).to_multiset().count(x) == if keep(x) {
            s.to_multiset().count(x)
        } else {
            0
        },
    decreases s.len(),
{
    if s.len() == 0 {
        s.lemma_filter_len(keep);
        assert(s.filter(keep).to_multiset().len() == 0);
    } else {
        let init = s.drop_last();
        assert(s =~= init.push(s.last()));
        init.lemma_filter_push(s.last(), keep);
        lemma_filter_count(init, keep, x);
    }
}

/// Order-preserving crossover of two permutations of equal length gives a
/// permutation, and keeps the first parent's window where it stood.
pub proof fn lemma_crossover_valid(p1: Seq<usize>, p2: Seq<usize>, start: int, end: int, n: usize)
    requires
        is_permutation(p1, n as nat),
        is_permutation(p2, n as nat),
        0 <= start <= end <= n,
    ensures
        outside_window(p1, p2, start, end).len() == n - (end - start),
        is_permutation(crossover_order(p1, p2, start, end), n as nat),
        crossover_order(p1, p2, start, end).subrange(start, end) == p1.subrange(start, end),
{
    let w = p1.subrange(start, end);
    let keep = not_in(w);
    let rest = p2.filter(keep);
    assert(w.no_duplicates());
    w.lemma_multiset_has_no_duplicates();
    p2.lemma_multiset_has_no_duplicates();
    lemma_permutation_covers(p2, n);
    lemma_multiset_commutative(rest, w);
    assert forall|x: usize| #[trigger] (rest + w).to_multiset().count(x) == p2.to_multiset().count(
        x,
    ) by {
        lemma_filter_count(p2, keep, x);
        if w.contains(x) {
            let i = choose|i: int| 0 <= i < w.len() && w[i] == x;
            assert(p1[start + i] < n);
            assert(p2.contains(x));
            assert(p2.to_multiset().count(x) > 0);
            assert(w.to_multiset().count(x) > 0);
        } else {
            assert(w.to_multiset().count(x) == 0);
        }
    }
    assert((rest + w).to_multiset() =~= p2.to_multiset());
    assert((rest + w).to_multiset().len() == (rest + w).len());
    assert(p2.to_multiset().len() == p2.len());
    assert(rest.len() + w.len() == n);
    let a = rest.take(start);
    let b = rest.skip(start);
    let child = a + w + b;
    assert(rest =~= a + b);
    lemma_multiset_commutative(a + w, b);
    lemma_multiset_commutative(a, w);
    lemma_multiset_commutative(a, b);
    assert(child.to_multiset() =~= p2.to_multiset());
    lemma_same_items_permutation(p2, child, n as nat);
    assert(child.subrange(start, end) =~= w);
}

/// Draws a window `[start, end)` of at least two places in an ordering of
/// `len` places; `start` stays below `len - 2`.
fn select_random_subslice(len: usize, rng: &mut StdRng) -> (r: (usize, usize))
    requires
        len >= 3,
    ensures
        r.0 < len - 2,
        r.0 + 2 <= r.1 <= len,
{
    let start = draw_below(rng, (len - 2) as u64) as usize;
    let end = start + 2 + draw_below(rng, (len - start - 1) as u64) as usize;
    (start, end)
}

/// The identity ordering is a permutation.
pub proof fn lemma_identity_permutation(n: usize)
    ensures
        is_permutation(identity(n as nat), n as nat),
{
    let s = identity(n as nat);
    assert forall|i: int, j: int| 0 <= i < s.len() && 0 <= j < s.len() && i != j implies s[i]
        != s[j] by {
        assert(s[i] == i);
        assert(s[j] == j);
    }
    assert forall|i: int| 0 <= i < s.len() implies #[trigger] s[i] < n by {
        assert(s[i] == i);
    }
}

/// A chromosome: a permutation of the palette's indices, and the
/// probabilities that pick its mutation operator.
#[derive(Clone, Debug)]
pub struct Gene {
    indices: Vec<usize>,
    probs: Probs,
}

impl View for Gene {
    type V = Seq<usize>;

    closed spec fn view(&self) -> Seq<usize> {
        self.indices@
    }
}

/// Appends `src[from..to]` to `out`.
fn append_range(out: &mut Vec<usize>, src: &Vec<usize>, from: usize, to: usize)
    requires
        from <= to <= src.len(),
    ensures
        final(out)@ == old(out)@ + src@.subrange(from as int, to as int),
{
    let mut i = from;
    while i < to
        invariant
            from <= i <= to <= src.len(),
            out@ == old(out)@ + src@.subrange(from as int, i as int),
        decreases to - i,
    {
        out.push(src[i]);
        i += 1;
        assert(src@.subrange(from as int, i as int) =~= src@.subrange(from as int, i - 1).push(
            src@[i - 1],
        ));
    }
}

/// Appends `src[from..to]`, last value first, to `out`.
fn append_reversed(out: &mut Vec<usize>, src: &Vec<usize>, from: usize, to: usize)
    requires
        from <= to <= src.len(),
    ensures
        final(out)@ == old(out)@ + src@.subrange(from as int, to as int).reverse(),
{
    let mut i = to;
    while i > from
        invariant
            from <= i <= to <= src.len(),
            out@ == old(out)@ + src@.subrange(i as int, to as int).reverse(),
        decreases i - from,
    {
        i -= 1;
        out.push(src[i]);
        assert(src@.subrange(i as int, to as int).reverse() =~= src@.subrange(
            i + 1,
            to as int,
        ).reverse().push(src@[i as int]));
    }
}

impl Gene {
    /// The chromosome is a permutation of its own length.
    pub open spec fn wf(&self) -> bool {
        is_permutation(self@, self@.len())
    }

    /// The chromosome carries the starting probabilities: rotation 0.2,
    /// reverse 0.7, random rotation 0.2.
    pub open spec fn has_start_probs(&self) -> bool {
        &&& self.probs_view().rotation.chance() == 200_000
        &&& self.probs_view().reverse.chance() == 700_000
        &&& self.probs_view().random_rotate.chance() == 200_000
    }

    /// The chromosome's operator probabilities.
    pub closed spec fn probs_view(&self) -> Probs {
        self.probs
    }

    /// The identity ordering of `count` indices, with the starting probabilities.
    pub fn new(count: usize) -> (r: Gene)
        ensures
            r@ == identity(count as nat),
            r.wf(),
            r.has_start_probs(),
    {
        let mut indices: Vec<usize> = Vec::new();
        let mut i: usize = 0;
        while i < count
            invariant
                i <= count,
                indices@ == identity(i as nat),
            decreases count - i,
        {
            indices.push(i);
            i += 1;
            assert(indices@ =~= identity(i as nat));
        }
        proof {
            lemma_identity_permutation(count);
        }
        Gene { indices, probs: Probs::new() }
    }

    /// The ordering of the palette's indices.
    pub fn indices(&self) -> (r: &Vec<usize>)
        ensures
            r@ == self@,
    {
        &self.indices
    }

    /// The number of indices.
    pub fn len(&self) -> (r: usize)
        ensures
            r == self@.len(),
    {
        self.indices.len()
    }

    /// The chromosome's operator probabilities.
    pub fn probs(&self) -> (r: Probs)
        ensures
            r == self.probs_view(),
    {
        self.probs
    }

    /// A copy with the same ordering and probabilities.
    pub fn duplicate(&self) -> (r: Gene)
        ensures
            r@ == self@,
            r.probs_view() == self.probs_view(),
    {
        Gene { indices: self.indices.clone(), probs: self.probs }
    }

    /// A uniformly shuffled ordering of `count` indices, with the starting probabilities.
    pub fn shuffled(count: usize, rng: &mut StdRng) -> (r: Gene)
        ensures
            r.wf(),
            r@.len() == count,
            r.has_start_probs(),
    {
        let mut gene = Gene::new(count);
        let ghost before = gene@;
        shuffle(rng, &mut gene.indices);
        proof {
            lemma_same_items_permutation(before, gene@, count as nat);
        }
        gene
    }

    /// Rotates the window `[start, end)` left by `k` places.
    pub fn rotate_subsequence(&mut self, start: usize, end: usize, k: usize)
        requires
            old(self).wf(),
            start < end <= old(self)@.len(),
            0 < k < end - start,
        ensures
            final(self)@ == rotated(old(self)@, start as int, end as int, k as int),
            final(self).wf(),
            final(self).probs_view() == old(self).probs_view(),
    {
        let ghost s = self@;
        let mut out: Vec<usize> = Vec::new();
        append_range(&mut out, &self.indices, 0, start);
        append_range(&mut out, &self.indices, start + k, end);
        append_range(&mut out, &self.indices, start, start + k);
        append_range(&mut out, &self.indices, end, self.indices.len());
        proof {
            assert(out@ =~= rotated(s, start as int, end as int, k as int));
            lemma_rotated_permutation(s, start as int, end as int, k as int, s.len());
        }
        self.indices = out;
    }

    /// Reverses the window `[start, end)`.
    pub fn reverse_subsequence(&mut self, start: usize, end: usize)
        requires
            old(self).wf(),
            start <= end <= old(self)@.len(),
        ensures
            final(self)@ == reversed(old(self)@, start as int, end as int),
            final(self).wf(),
            final(self).probs_view() == old(self).probs_view(),
    {
        let ghost s = self@;
        let mut out: Vec<usize> = Vec::new();
        append_range(&mut out, &self.indices, 0, start);
        append_reversed(&mut out, &self.indices, start, end);
        append_range(&mut out, &self.indices, end, self.indices.len());
        proof {
            assert(out@ =~= reversed(s, start as int, end as int));
            lemma_reversed_permutation(s, start as int, end as int, s.len());
        }
        self.indices = out;
    }

    /// Exchanges the values at positions `i` and `j`.
    pub fn swap_positions(&mut self, i: usize, j: usize)
        requires
            old(self).wf(),
            i < old(self)@.len(),
            j < old(self)@.len(),
        ensures
            final(self)@ == swapped(old(self)@, i as int, j as int),
            final(self).wf(),
            final(self).probs_view() == old(self).probs_view(),
    {
        let ghost s = self@;
        let a = self.indices[i];
        let b = self.indices[j];
        self.indices.set(i, b);
        self.indices.set(j, a);
        proof {
            lemma_swapped_permutation(s, i as int, j as int, s.len());
        }
    }

    /// Rotates a random window of at least two places left, by one place or,
    /// when `random_rotate` comes up, by a random amount.
    pub fn rotate_random_subsequence(&mut self, rng: &mut StdRng)
        requires
            old(self).wf(),
            old(self)@.len() >= 3,
        ensures
            final(self).wf(),
            final(self).probs_view() == old(self).probs_view(),
            is_rotation_of(old(self)@, final(self)@),
            old(self).probs_view().random_rotate.chance() == 0 ==> is_unit_rotation_of(
                old(self)@,
                final(self)@,
            ),
    {
        let (start, end) = select_random_subslice(self.indices.len(), rng);
        let k: usize = if self.probs.random_rotate.sample(rng) {
            1 + draw_below(rng, (end - start - 1) as u64) as usize
        } else {
            1
        };
        self.rotate_subsequence(start, end, k);
        assert(final(self)@ == rotated(old(self)@, start as int, end as int, k as int));
        assert(k == 1 ==> final(self)@ == rotated(old(self)@, start as int, end as int, 1));
    }

    /// Reverses a random window of at least two places.
    pub fn reverse_random_subsequence(&mut self, rng: &mut StdRng)
        requires
            old(self).wf(),
            old(self)@.len() >= 3,
        ensures
            final(self).wf(),
            final(self).probs_view() == old(self).probs_view(),
            is_reversal_of(old(self)@, final(self)@),
    {
        let (start, end) = select_random_subslice(self.indices.len(), rng);
        self.reverse_subsequence(start, end);
        assert(final(self)@ == reversed(old(self)@, start as int, end as int));
    }

    /// Exchanges the values at two positions drawn independently (they may coincide).
    pub fn swap_random_positions(&mut self, rng: &mut StdRng)
        requires
            old(self).wf(),
            old(self)@.len() >= 1,
        ensures
            final(self).wf(),
            final(self).probs_view() == old(self).probs_view(),
            is_swap_of(old(self)@, final(self)@),
    {
        let len = self.indices.len();
        let i = draw_below(rng, len as u64) as usize;
        let j = draw_below(rng, len as u64) as usize;
        self.swap_positions(i, j);
        assert(final(self)@ == swapped(old(self)@, i as int, j as int));
    }

    /// Applies the structural move that the two coin results pick: a
    /// rotation when `rotate` came up, else a reversal when `reverse` came up,
    /// else a swap. The probabilities are left as they are.
    pub fn apply_move(&mut self, rotate: bool, reverse: bool, rng: &mut StdRng)
        requires
            old(self).wf(),
            old(self)@.len() >= 3,
        ensures
            final(self).wf(),
            final(self)@.len() == old(self)@.len(),
            final(self).probs_view() == old(self).probs_view(),
            rotate ==> is_rotation_of(old(self)@, final(self)@),
            rotate && old(self).probs_view().random_rotate.chance() == 0 ==> is_unit_rotation_of(
                old(self)@,
                final(self)@,
            ),
            !rotate && reverse ==> is_reversal_of(old(self)@, final(self)@),
            !rotate && !reverse ==> is_swap_of(old(self)@, final(self)@),
    {
        if rotate {
            self.rotate_random_subsequence(rng)
        } else if reverse {
            self.reverse_random_subsequence(rng)
        } else {
            self.swap_random_positions(rng)
        }
    }

    /// Applies one structural move, picked by the chromosome's own
    /// probabilities (rotation first, then reversal, else a swap), then takes
    /// one self-adaptation step of those probabilities.
    pub fn mutate(&mut self, rng: &mut StdRng)
        requires
            old(self).wf(),
            old(self)@.len() >= 3,
        ensures
            final(self).wf(),
            final(self)@.len() == old(self)@.len(),
            is_one_move(old(self)@, final(self)@),
            old(self).probs_view().rotation.chance() == PROB_SCALE ==> is_rotation_of(
                old(self)@,
                final(self)@,
            ),
            old(self).probs_view().rotation.chance() == PROB_SCALE
                && old(self).probs_view().random_rotate.chance() == 0 ==> is_unit_rotation_of(
                old(self)@,
                final(self)@,
            ),
            old(self).probs_view().rotation.chance() == 0
                && old(self).probs_view().reverse.chance() == PROB_SCALE ==> is_reversal_of(
                old(self)@,
                final(self)@,
            ),
            old(self).probs_view().rotation.chance() == 0
                && old(self).probs_view().reverse.chance() == 0 ==> is_swap_of(
                old(self)@,
                final(self)@,
            ),
            is_step_of(
                old(self).probs_view().rotation.chance(),
                final(self).probs_view().rotation.chance(),
            ),
            is_step_of(
                old(self).probs_view().reverse.chance(),
                final(self).probs_view().reverse.chance(),
            ),
            is_step_of(
                old(self).probs_view().random_rotate.chance(),
                final(self).probs_view().random_rotate.chance(),
            ),
    {
        let rotate = self.probs.rotation.sample(rng);
        let reverse = if rotate {
            false
        } else {
            self.probs.reverse.sample(rng)
        };
        self.apply_move(rotate, reverse, rng);
        self.probs.mutate(rng);
    }

    /// The order-preserving crossover of two parents over `parent_1`'s window
    /// `[start, end)`, carrying the given probabilities.
    pub fn crossover_window(
        parent_1: &Gene,
        parent_2: &Gene,
        start: usize,
        end: usize,
        probs: Probs,
    ) -> (r: Gene)
        requires
            parent_1.wf(),
            parent_2.wf(),
            parent_1@.len() == parent_2@.len(),
            start <= end <= parent_1@.len(),
        ensures
            r@ == crossover_order(parent_1@, parent_2@, start as int, end as int),
            r.wf(),
            r@.len() == parent_1@.len(),
            r.probs_view() == probs,
    {
        let len = parent_1.indices.len();
        let ghost w = parent_1@.subrange(start as int, end as int);
        let mut picked: Vec<bool> = Vec::new();
        let mut v: usize = 0;
        while v < len
            invariant
                v <= len,
                picked@.len() == v,
                forall|k: int| 0 <= k < v ==> !picked@[k],
            decreases len - v,
        {
            picked.push(false);
            v += 1;
        }
        let mut i: usize = start;
        while i < end
            invariant
                start <= i <= end <= len,
                len == parent_1@.len(),
                parent_1.wf(),
                picked@.len() == len,
                forall|k: int|
                    0 <= k < len ==> #[trigger] picked@[k] == parent_1@.subrange(
                        start as int,
                        i as int,
                    ).contains(k as usize),
            decreases end - i,
        {
            let x = parent_1.indices[i];
            let ghost before = parent_1@.subrange(start as int, i as int);
            picked.set(x, true);
            i += 1;
            assert(parent_1@.subrange(start as int, i as int) =~= before.push(x));
            assert forall|k: int| 0 <= k < len implies #[trigger] picked@[k] == parent_1@.subrange(
                start as int,
                i as int,
            ).contains(k as usize) by {
                let y = k as usize;
                if y == x {
                    assert(before.push(x)[before.len() as int] == x);
                } else if before.contains(y) {
                    let m = choose|m: int| 0 <= m < before.len() && before[m] == y;
                    assert(before.push(x)[m] == y);
                } else if before.push(x).contains(y) {
                    let m = choose|m: int| 0 <= m < before.len() + 1 && before.push(x)[m] == y;
                    assert(before[m] == y);
                }
            }
        }
        let mut rest: Vec<usize> = Vec::new();
        let mut j: usize = 0;
        while j < len
            invariant
                j <= len,
                len == parent_2@.len(),
                parent_2.wf(),
                picked@.len() == len,
                forall|k: int| 0 <= k < len ==> #[trigger] picked@[k] == w.contains(k as usize),
                rest@ == parent_2@.take(j as int).filter(not_in(w)),
            decreases len - j,
        {
            let x = parent_2.indices[j];
            proof {
                assert(parent_2@.take(j + 1) =~= parent_2@.take(j as int).push(x));
                parent_2@.take(j as int).lemma_filter_push(x, not_in(w));
            }
            if !picked[x] {
                rest.push(x);
            }
            j += 1;
        }
        proof {
            assert(parent_2@.take(len as int) =~= parent_2@);
            lemma_crossover_valid(parent_1@, parent_2@, start as int, end as int, len);
        }
        let mut out: Vec<usize> = Vec::new();
        append_range(&mut out, &rest, 0, start);
        append_range(&mut out, &parent_1.indices, start, end);
        append_range(&mut out, &rest, start, rest.len());
        proof {
            assert(rest@.subrange(0, start as int) =~= rest@.take(start as int));
            assert(rest@.subrange(start as int, rest@.len() as int) =~= rest@.skip(start as int));
        }
        Gene { indices: out, probs }
    }

    /// One child of two parents of equal, positive length: a random window of
    /// `parent_1` kept in place, the other values in `parent_2`'s order, and
    /// each probability taken from either parent by a fair coin.
    pub fn crossover(parent_1: &Gene, parent_2: &Gene, rng: &mut StdRng) -> (r: Gene)
        requires
            parent_1.wf(),
            parent_2.wf(),
            parent_1@.len() == parent_2@.len(),
            parent_1@.len() > 0,
        ensures
            r.wf(),
            r@.len() == parent_1@.len(),
            exists|start: int, end: int|
                0 <= start <= end <= parent_1@.len() && r@ == #[trigger] crossover_order(
                    parent_1@,
                    parent_2@,
                    start,
                    end,
                ),
            r.probs_view().rotation == parent_1.probs_view().rotation || r.probs_view().rotation
                == parent_2.probs_view().rotation,
            r.probs_view().reverse == parent_1.probs_view().reverse || r.probs_view().reverse
                == parent_2.probs_view().reverse,
            r.probs_view().random_rotate == parent_1.probs_view().random_rotate
                || r.probs_view().random_rotate == parent_2.probs_view().random_rotate,
    {
        let len = parent_1.indices.len();
        let start = draw_below(rng, len as u64) as usize;
        let end = start + draw_below(rng, (len - start) as u64) as usize;
        let probs = parent_1.probs.crossover(&parent_2.probs, rng);
        let child = Gene::crossover_window(parent_1, parent_2, start, end, probs);
        assert(child@ == crossover_order(parent_1@, parent_2@, start as int, end as int));
        child
    }
}

} // verus!
