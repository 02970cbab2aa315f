//! The seeded Fisher-Yates shuffle and the permutation it applies.

use vstd::prelude::*;
use crate::permutation::{
    identity_order, is_permutation, lemma_identity_is_permutation, lemma_rearranged_same_elements,
    lemma_swapped_is_permutation, rearranged, swapped,
};
use crate::prng::{lcg_draw, lcg_state, prng};

verus! {

/// Assumed of `<[T]>::swap` in the standard library, from its documentation
/// and not proved here: with both indices in bounds, the two elements exchange
/// places and every other element stays where it was. An index out of bounds,
/// on which the call panics, is excluded.
pub assume_specification<T>[ <[T]>::swap ](s: &mut [T], a: usize, b: usize)
    requires
        a < old(s)@.len(),
        b < old(s)@.len(),
    ensures
        final(s)@ == old(s)@.update(a as int, old(s)@[b as int]).update(b as int, old(s)@[a as int]),
;

/// The position whose element step `k` exchanges with the one at `k`, in a
/// shuffle of `len` elements: `k` plus the `k`-th draw reduced modulo the
/// number of positions from `k` on.
pub open spec fn shuffle_target(len: nat, seed: u32, k: nat) -> int {
    k + (lcg_draw(seed, k) as int) % ((len - k) as int)
}

/// `s` after the first `k` steps of the shuffle.
pub open spec fn shuffle_steps<A>(s: Seq<A>, seed: u32, k: nat) -> Seq<A>
    decreases k,
{
    if k == 0 {
        s
    } else {
        let before = shuffle_steps(s, seed, (k - 1) as nat);
        swapped(before, k - 1, shuffle_target(s.len(), seed, (k - 1) as nat))
    }
}

/// `s` after the whole shuffle: one step for each position, the last of which
/// exchanges the final element with itself.
pub open spec fn shuffled<A>(s: Seq<A>, seed: u32) -> Seq<A> {
    shuffle_steps(s, seed, s.len())
}

/// Shuffles `list` in place with the generator started at `seed`.
pub fn shuffle<A>(list: &mut [A], seed: u32)
    ensures
        final(list)@ == shuffled(old(list)@, seed),
        final(list)@.len() == old(list)@.len(),
        final(list)@.to_multiset() == old(list)@.to_multiset(),
{
    proof {
        lemma_shuffled_is_permutation(old(list)@, seed);
    }
    let mut state: u32 = seed;
    let len: usize = list.len();
    let mut i: usize = 0;
    while i < len
        invariant
            i <= len,
            len == list@.len(),
            len == old(list)@.len(),
            state == lcg_state(seed, i as nat),
            list@ == shuffle_steps(old(list)@, seed, i as nat),
        decreases len - i,
    {
        let r: usize = prng(&mut state) as usize;
        // On the last position the range has one element, so the draw is
        // spent on exchanging that element with itself.
        let j: usize = i + r % (len - i);
        list.swap(i, j);
        i = i + 1;
    }
}

/// The order in which a shuffle of `len` elements with `seed` takes them: the
/// shuffle of the positions `0..len` themselves.
pub open spec fn shuffle_order(len: nat, seed: u32) -> Seq<int> {
    shuffled(identity_order(len), seed)
}

/// Each step exchanges position `k` with a position from `k` to the end.
pub proof fn lemma_shuffle_target_in_range(len: nat, seed: u32, k: nat)
    requires
        k < len,
    ensures
        k <= shuffle_target(len, seed, k) < len,
{
}

/// The steps of a shuffle keep the length.
pub proof fn lemma_shuffle_steps_len<A>(s: Seq<A>, seed: u32, k: nat)
    requires
        k <= s.len(),
    ensures
        shuffle_steps(s, seed, k).len() == s.len(),
    decreases k,
{
    if k > 0 {
        lemma_shuffle_steps_len(s, seed, (k - 1) as nat);
    }
}

/// After any number of steps the positions `0..len` are still a permutation.
pub proof fn lemma_shuffle_steps_is_permutation(len: nat, seed: u32, k: nat)
    requires
        k <= len,
    ensures
        is_permutation(shuffle_steps(identity_order(len), seed, k), len),
    decreases k,
{
    if k == 0 {
        lemma_identity_is_permutation(len);
    } else {
        let before = shuffle_steps(identity_order(len), seed, (k - 1) as nat);
        lemma_shuffle_steps_is_permutation(len, seed, (k - 1) as nat);
        lemma_shuffle_target_in_range(len, seed, (k - 1) as nat);
        lemma_swapped_is_permutation(before, len, k - 1, shuffle_target(len, seed, (k - 1) as nat));
    }
}

/// The steps of a shuffle move the elements of any sequence as they move the
/// positions `0..len`.
pub proof fn lemma_shuffle_steps_by_order<A>(s: Seq<A>, seed: u32, k: nat)
    requires
        k <= s.len(),
    ensures
        shuffle_steps(s, seed, k) == rearranged(
            s,
            shuffle_steps(identity_order(s.len()), seed, k),
        ),
    decreases k,
{
    let len = s.len();
    let order = shuffle_steps(identity_order(len), seed, k);
    if k == 0 {
        assert(shuffle_steps(s, seed, k) =~= rearranged(s, order));
    } else {
        let j = (k - 1) as nat;
        let t = shuffle_target(len, seed, j);
        let before = shuffle_steps(s, seed, j);
        let order_before = shuffle_steps(identity_order(len), seed, j);
        lemma_shuffle_steps_by_order(s, seed, j);
        lemma_shuffle_steps_len(s, seed, j);
        lemma_shuffle_steps_len(identity_order(len), seed, j);
        lemma_shuffle_target_in_range(len, seed, j);
        assert(swapped(before, j as int, t) =~= rearranged(s, swapped(order_before, j as int, t)));
    }
}

/// A shuffle is a permutation that the length and the seed alone determine:
/// its order lists every position exactly once, and the shuffle of any
/// sequence of that length is the sequence rearranged in that order.
pub proof fn lemma_shuffled_is_permutation<A>(s: Seq<A>, seed: u32)
    ensures
        is_permutation(shuffle_order(s.len(), seed), s.len()),
        shuffled(s, seed) == rearranged(s, shuffle_order(s.len(), seed)),
        shuffled(s, seed).len() == s.len(),
        shuffled(s, seed).to_multiset() == s.to_multiset(),
{
    lemma_shuffle_steps_is_permutation(s.len(), seed, s.len());
    lemma_shuffle_steps_by_order(s, seed, s.len());
    lemma_rearranged_same_elements(s, shuffle_order(s.len(), seed));
}

/// A sequence of at most one element is its own shuffle, whatever the seed.
pub proof fn lemma_shuffled_single<A>(s: Seq<A>, seed: u32)
    requires
        s.len() <= 1,
    ensures
        shuffled(s, seed) == s,
{
    if s.len() == 1 {
        assert(shuffle_steps(s, seed, 0) == s);
        lemma_shuffle_target_in_range(1, seed, 0);
        assert(swapped(s, 0, shuffle_target(1, seed, 0)) =~= s);
    }
}

} // verus!
