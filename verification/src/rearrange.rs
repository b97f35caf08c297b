//! Sequences that hold the same elements in another order.

use vstd::prelude::*;
use vstd::seq_lib::{to_multiset_build, to_multiset_contains, to_multiset_len, to_multiset_remove};

verus! {

/// `s2` lists the elements of `s1` in another order: element `k` of `s2` is
/// element `to[k]` of `s1`, and `back` is the inverse of `to`.
pub open spec fn rearranges<A>(s1: Seq<A>, s2: Seq<A>, to: Seq<int>, back: Seq<int>) -> bool {
    &&& to.len() == s2.len()
    &&& back.len() == s1.len()
    &&& forall|k: int|
        0 <= k < s2.len() ==> 0 <= #[trigger] to[k] < s1.len() && back[to[k]] == k && s2[k] == s1[to[k]]
    &&& forall|p: int| 0 <= p < s1.len() ==> 0 <= #[trigger] back[p] < s2.len() && to[back[p]] == p
}

/// The relation is symmetric, with the two maps exchanged.
pub proof fn lemma_rearranges_symmetric<A>(s1: Seq<A>, s2: Seq<A>, to: Seq<int>, back: Seq<int>)
    requires
        rearranges(s1, s2, to, back),
    ensures
        rearranges(s2, s1, back, to),
{
    assert forall|p: int| 0 <= p < s1.len() implies 0 <= #[trigger] back[p] < s2.len() && to[back[p]]
        == p && s1[p] == s2[back[p]] by {
        let k = back[p];
        assert(s2[k] == s1[to[k]]);
    }
}

/// A rearranged sequence has the same length and the same multiset of
/// elements.
pub proof fn lemma_rearranged_multiset<A>(s1: Seq<A>, s2: Seq<A>, to: Seq<int>, back: Seq<int>)
    requires
        rearranges(s1, s2, to, back),
    ensures
        s1.len() == s2.len(),
        s1.to_multiset() == s2.to_multiset(),
    decreases s2.len(),
{
    broadcast use vstd::multiset::group_multiset_axioms;

    if s2.len() == 0 {
        if s1.len() > 0 {
            assert(0 <= back[0] < s2.len());
        }
        assert(s1 =~= s2);
    } else {
        let k = s2.len() - 1;
        let p = to[k];
        let v = s2[k];
        let s2p = s2.drop_last();
        let s1p = s1.remove(p);
        let to_p = Seq::new(k as nat, |j: int| if to[j] > p { to[j] - 1 } else { to[j] });
        let back_p = Seq::new((s1.len() - 1) as nat, |q: int| back[if q < p { q } else { q + 1 }]);
        assert forall|j: int| 0 <= j < s2p.len() implies 0 <= #[trigger] to_p[j] < s1p.len()
            && back_p[to_p[j]] == j && s2p[j] == s1p[to_p[j]] by {
            assert(back[to[j]] == j);
            assert(back[to[k]] == k);
            assert(to[j] != p);
            assert(s2[j] == s1[to[j]]);
        }
        assert forall|q: int| 0 <= q < s1p.len() implies 0 <= #[trigger] back_p[q] < s2p.len()
            && to_p[back_p[q]] == q by {
            let q0 = if q < p { q } else { q + 1 };
            assert(0 <= back[q0] < s2.len() && to[back[q0]] == q0);
            assert(back[q0] != k);
        }
        lemma_rearranged_multiset(s1p, s2p, to_p, back_p);
        to_multiset_remove(s1, p);
        assert(s2 =~= s2p.push(v));
        to_multiset_build(s2p, v);
        assert(s1.contains(s1[p]));
        to_multiset_contains(s1, s1[p]);
        assert(s1.to_multiset() =~= s1.to_multiset().remove(v).insert(v));
    }
}

/// Two sequences with the same multiset of elements are rearrangements of
/// each other.
pub proof fn lemma_multiset_rearrangement<A>(s1: Seq<A>, s2: Seq<A>) -> (maps: (Seq<int>, Seq<int>))
    requires
        s1.to_multiset() == s2.to_multiset(),
    ensures
        rearranges(s1, s2, maps.0, maps.1),
    decreases s2.len(),
{
    broadcast use vstd::multiset::group_multiset_axioms;

    to_multiset_len(s1);
    to_multiset_len(s2);
    if s2.len() == 0 {
        (Seq::empty(), Seq::empty())
    } else {
        let k = s2.len() - 1;
        let v = s2[k];
        assert(s2.contains(v));
        to_multiset_contains(s2, v);
        to_multiset_contains(s1, v);
        let p = choose|p: int| 0 <= p < s1.len() && s1[p] == v;
        let s2p = s2.drop_last();
        let s1p = s1.remove(p);
        to_multiset_remove(s1, p);
        assert(s2 =~= s2p.push(v));
        to_multiset_build(s2p, v);
        assert(s2p.to_multiset() =~= s2.to_multiset().remove(v));
        let (to_p, back_p) = lemma_multiset_rearrangement(s1p, s2p);
        let to = Seq::new(
            s2.len(),
            |j: int|
                if j == k {
                    p
                } else if to_p[j] >= p {
                    to_p[j] + 1
                } else {
                    to_p[j]
                },
        );
        let back = Seq::new(
            s1.len(),
            |q: int|
                if q == p {
                    k
                } else {
                    back_p[if q < p { q } else { q - 1 }]
                },
        );
        assert forall|j: int| 0 <= j < s2.len() implies 0 <= #[trigger] to[j] < s1.len() && back[to[j]]
            == j && s2[j] == s1[to[j]] by {
            if j < k {
                assert(0 <= to_p[j] < s1p.len() && back_p[to_p[j]] == j && s2p[j] == s1p[to_p[j]]);
            }
        }
        assert forall|q: int| 0 <= q < s1.len() implies 0 <= #[trigger] back[q] < s2.len() && to[back[q]]
            == q by {
            if q != p {
                let q0 = if q < p { q } else { q - 1 };
                assert(0 <= back_p[q0] < s2p.len() && to_p[back_p[q0]] == q0);
            }
        }
        (to, back)
    }
}

} // verus!
