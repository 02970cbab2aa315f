//! Permutations of the positions `0..n`, as sequences of indices.

use vstd::prelude::*;

verus! {

/// `s` with the elements at positions `i` and `j` exchanged.
pub open spec fn swapped<A>(s: Seq<A>, i: int, j: int) -> Seq<A> {
    s.update(i, s[j]).update(j, s[i])
}

/// The positions `0..n` in their own order.
pub open spec fn identity_order(n: nat) -> Seq<int> {
    Seq::new(n, |i: int| i)
}

/// `p` lists each of the positions `0..n` exactly once.
pub open spec fn is_permutation(p: Seq<int>, n: nat) -> bool {
    &&& p.len() == n
    &&& forall|i: int| 0 <= i < n ==> 0 <= #[trigger] p[i] < n
    &&& forall|i: int, j: int| 0 <= i < j < n ==> #[trigger] p[i] != #[trigger] p[j]
    &&& forall|v: int| 0 <= v < n ==> #[trigger] p.contains(v)
}

/// `s` rearranged so that position `i` holds what `s` held at `p[i]`.
pub open spec fn rearranged<A>(s: Seq<A>, p: Seq<int>) -> Seq<A> {
    Seq::new(p.len(), |i: int| s[p[i]])
}

/// The identity order is a permutation.
pub proof fn lemma_identity_is_permutation(n: nat)
    ensures
        is_permutation(identity_order(n), n),
{
    let p = identity_order(n);
    assert forall|v: int| 0 <= v < n implies #[trigger] p.contains(v) by {
        assert(p[v] == v);
    }
}

/// Exchanging two entries of a permutation gives a permutation.
pub proof fn lemma_swapped_is_permutation(p: Seq<int>, n: nat, a: int, b: int)
    requires
        is_permutation(p, n),
        0 <= a < n,
        0 <= b < n,
    ensures
        is_permutation(swapped(p, a, b), n),
{
    let q = swapped(p, a, b);
    assert forall|i: int| 0 <= i < n implies 0 <= #[trigger] q[i] < n by {
        assert(q[i] == p[i] || q[i] == p[a] || q[i] == p[b]);
    }
    assert forall|i: int, j: int| 0 <= i < j < n implies #[trigger] q[i] != #[trigger] q[j] by {
        let si = if i == a { b } else if i == b { a } else { i };
        let sj = if j == a { b } else if j == b { a } else { j };
        assert(q[i] == p[si]);
        assert(q[j] == p[sj]);
        assert(si != sj);
        if si < sj {
            assert(p[si] != p[sj]);
        } else {
            assert(p[sj] != p[si]);
        }
    }
    assert forall|v: int| 0 <= v < n implies #[trigger] q.contains(v) by {
        assert(p.contains(v));
        let i0 = choose|i: int| 0 <= i < n && p[i] == v;
        let i1 = if i0 == a { b } else if i0 == b { a } else { i0 };
        assert(q[i1] == v);
    }
}

/// Rearranging by a permutation keeps every element, as often as it occurred.
pub proof fn lemma_rearranged_same_elements<A>(s: Seq<A>, p: Seq<int>)
    requires
        is_permutation(p, s.len()),
    ensures
        rearranged(s, p).to_multiset() == s.to_multiset(),
    decreases s.len(),
{
    let r = rearranged(s, p);
    let n = s.len();
    if n == 0 {
        assert(r =~= s);
    } else {
        // Take the last element of `s` out of both sequences, and renumber the
        // permutation over what is left.
        let last = (n - 1) as int;
        assert(p.contains(last));
        let at = choose|i: int| 0 <= i < n && p[i] == last;
        let s1 = s.drop_last();
        let p1 = p.remove(at);
        assert forall|v: int| 0 <= v < n - 1 implies #[trigger] p1.contains(v) by {
            assert(p.contains(v));
            let i0 = choose|i: int| 0 <= i < n && p[i] == v;
            assert(i0 != at);
            let i1 = if i0 < at { i0 } else { i0 - 1 };
            assert(p1[i1] == p[i0]);
        }
        assert forall|i: int| 0 <= i < n - 1 implies 0 <= #[trigger] p1[i] < n - 1 by {
            let i0 = if i < at { i } else { i + 1 };
            assert(p1[i] == p[i0]);
            if i0 < at {
                assert(p[i0] != p[at]);
            } else {
                assert(p[at] != p[i0]);
            }
        }
        assert forall|i: int, j: int| 0 <= i < j < n - 1 implies #[trigger] p1[i] != #[trigger] p1[j] by {
            let i0 = if i < at { i } else { i + 1 };
            let j0 = if j < at { j } else { j + 1 };
            assert(p1[i] == p[i0]);
            assert(p1[j] == p[j0]);
            assert(p[i0] != p[j0]);
        }
        assert(is_permutation(p1, s1.len()));
        lemma_rearranged_same_elements(s1, p1);
        assert(rearranged(s1, p1) =~= r.remove(at));
        assert(r[at] == s[last]);
        broadcast use vstd::seq_lib::group_to_multiset_ensures;
        assert(r.remove(at).to_multiset() == r.to_multiset().remove(r[at]));
        assert(s1 =~= s.remove(last));
        assert(s.remove(last).to_multiset() == s.to_multiset().remove(s[last]));
        assert(r.to_multiset().count(r[at]) > 0) by {
            assert(r.contains(r[at]));
        }
        assert(s.to_multiset().count(s[last]) > 0) by {
            assert(s.contains(s[last]));
        }
        assert(r.to_multiset() =~= r.to_multiset().remove(r[at]).insert(r[at]));
        assert(s.to_multiset() =~= s.to_multiset().remove(s[last]).insert(s[last]));
    }
}

} // verus!
