//! Grouping does not depend on the order of its input: the same rectangles
//! in another order give the same averages, possibly in another order.

use vstd::prelude::*;
use vstd::seq_lib::{commutative_foldl, lemma_fold_left_permutation};
use crate::geometry::Rect;
use crate::grouping::{
    class_average, class_count, class_totals, emitted, grouped, is_leader, kept_leaders, ClassTotals,
};
use crate::partition::{
    chain_between, connected, lemma_connected_in_range, lemma_connected_reflexive,
    lemma_connected_symmetric, lemma_connected_transitive,
};
use crate::rearrange::{
    lemma_multiset_rearrangement, lemma_rearranged_multiset, lemma_rearranges_symmetric, rearranges,
};

verus! {

/// A chain of `b` is carried by `to` onto a chain of `a`.
proof fn lemma_connected_mapped(
    a: Seq<Rect>,
    b: Seq<Rect>,
    num: int,
    den: int,
    to: Seq<int>,
    i: int,
    j: int,
)
    requires
        to.len() == b.len(),
        forall|k: int| 0 <= k < b.len() ==> 0 <= #[trigger] to[k] < a.len() && b[k] == a[to[k]],
        connected(b, num, den, i, j),
    ensures
        connected(a, num, den, to[i], to[j]),
{
    let p = choose|p: Seq<int>| #[trigger] chain_between(b, num, den, p, i, j);
    let q = Seq::new(p.len(), |t: int| to[p[t]]);
    assert forall|t: int| 0 <= t < q.len() implies 0 <= #[trigger] q[t] < a.len() by {
        assert(0 <= p[t] < b.len());
    }
    assert forall|t: int| 0 <= t < q.len() - 1 implies crate::geometry::similar(
        num,
        den,
        a[#[trigger] q[t]],
        a[q[t + 1]],
    ) by {
        assert(0 <= p[t] < b.len());
        assert(0 <= p[t + 1] < b.len());
        assert(crate::geometry::similar(num, den, b[p[t]], b[p[t + 1]]));
    }
    assert(chain_between(a, num, den, q, to[i], to[j]));
}

/// Connectedness is the same in a list and in its rearrangement.
proof fn lemma_connected_rearranged(
    a: Seq<Rect>,
    b: Seq<Rect>,
    num: int,
    den: int,
    to: Seq<int>,
    back: Seq<int>,
    i: int,
    j: int,
)
    requires
        rearranges(a, b, to, back),
        0 <= i < b.len(),
        0 <= j < b.len(),
    ensures
        connected(b, num, den, i, j) <==> connected(a, num, den, to[i], to[j]),
{
    if connected(b, num, den, i, j) {
        lemma_connected_mapped(a, b, num, den, to, i, j);
    }
    if connected(a, num, den, to[i], to[j]) {
        lemma_rearranges_symmetric(a, b, to, back);
        lemma_connected_mapped(b, a, num, den, back, to[i], to[j]);
        assert(back[to[i]] == i);
        assert(back[to[j]] == j);
    }
}

/// What each index of the list gives to the totals of the class of `i`: its
/// rectangle if it is a member, nothing otherwise.
spec fn shares(rects: Seq<Rect>, num: int, den: int, i: int) -> Seq<Option<Rect>> {
    Seq::new(
        rects.len(),
        |j: int|
            if connected(rects, num, den, i, j) {
                Some(rects[j])
            } else {
                None
            },
    )
}

spec fn add_share(acc: ClassTotals, share: Option<Rect>) -> ClassTotals {
    match share {
        Some(r) => acc.plus(r),
        None => acc,
    }
}

spec fn adder() -> spec_fn(ClassTotals, Option<Rect>) -> ClassTotals {
    |acc: ClassTotals, share: Option<Rect>| add_share(acc, share)
}

proof fn lemma_totals_fold(rects: Seq<Rect>, num: int, den: int, i: int, upto: int)
    requires
        0 <= upto <= rects.len(),
    ensures
        class_totals(rects, num, den, i, upto) == shares(rects, num, den, i).take(upto).fold_left(
            ClassTotals::zero(),
            adder(),
        ),
    decreases upto,
{
    let s = shares(rects, num, den, i);
    if upto > 0 {
        lemma_totals_fold(rects, num, den, i, upto - 1);
        assert(s.take(upto).drop_last() =~= s.take(upto - 1));
        assert(s.take(upto).last() == s[upto - 1]);
    }
}

/// The totals of a class are the same in a list and in its rearrangement.
proof fn lemma_totals_rearranged(
    a: Seq<Rect>,
    b: Seq<Rect>,
    num: int,
    den: int,
    to: Seq<int>,
    back: Seq<int>,
    i: int,
)
    requires
        rearranges(a, b, to, back),
        0 <= i < b.len(),
    ensures
        a.len() == b.len(),
        class_totals(b, num, den, i, b.len() as int) == class_totals(
            a,
            num,
            den,
            to[i],
            a.len() as int,
        ),
{
    lemma_rearranged_multiset(a, b, to, back);
    let sa = shares(a, num, den, to[i]);
    let sb = shares(b, num, den, i);
    assert forall|k: int| 0 <= k < sb.len() implies 0 <= #[trigger] to[k] < sa.len() && back[to[k]] == k
        && sb[k] == sa[to[k]] by {
        lemma_connected_rearranged(a, b, num, den, to, back, i, k);
    }
    assert(rearranges(sa, sb, to, back));
    lemma_rearranged_multiset(sa, sb, to, back);
    assert(commutative_foldl(adder()));
    lemma_fold_left_permutation(sa, sb, adder(), ClassTotals::zero());
    lemma_totals_fold(a, num, den, to[i], a.len() as int);
    lemma_totals_fold(b, num, den, i, b.len() as int);
    assert(sa.take(a.len() as int) =~= sa);
    assert(sb.take(b.len() as int) =~= sb);
}

/// Connected indices have the same class totals.
proof fn lemma_totals_of_connected(rects: Seq<Rect>, num: int, den: int, i: int, j: int, upto: int)
    requires
        connected(rects, num, den, i, j),
        0 <= upto <= rects.len(),
    ensures
        class_totals(rects, num, den, i, upto) == class_totals(rects, num, den, j, upto),
    decreases upto,
{
    if upto > 0 {
        lemma_totals_of_connected(rects, num, den, i, j, upto - 1);
        let k = upto - 1;
        if connected(rects, num, den, i, k) {
            lemma_connected_symmetric(rects, num, den, i, j);
            lemma_connected_transitive(rects, num, den, j, i, k);
        }
        if connected(rects, num, den, j, k) {
            lemma_connected_transitive(rects, num, den, i, j, k);
        }
    }
}

/// The first member of the class of `i`.
spec fn leader_of(rects: Seq<Rect>, num: int, den: int, i: int) -> int {
    choose|l: int| 0 <= l <= i && connected(rects, num, den, l, i) && is_leader(rects, num, den, l)
}

proof fn lemma_leader_exists(rects: Seq<Rect>, num: int, den: int, i: int)
    requires
        0 <= i < rects.len(),
    ensures
        exists|l: int| 0 <= l <= i && connected(rects, num, den, l, i) && is_leader(rects, num, den, l),
    decreases i,
{
    if is_leader(rects, num, den, i) {
        lemma_connected_reflexive(rects, num, den, i);
    } else {
        let j = choose|j: int| 0 <= j < i && connected(rects, num, den, j, i);
        lemma_leader_exists(rects, num, den, j);
        let l = choose|l: int|
            0 <= l <= j && connected(rects, num, den, l, j) && is_leader(rects, num, den, l);
        lemma_connected_transitive(rects, num, den, l, j, i);
    }
}

proof fn lemma_leader_of(rects: Seq<Rect>, num: int, den: int, i: int)
    requires
        0 <= i < rects.len(),
    ensures
        0 <= leader_of(rects, num, den, i) <= i,
        connected(rects, num, den, leader_of(rects, num, den, i), i),
        is_leader(rects, num, den, leader_of(rects, num, den, i)),
{
    lemma_leader_exists(rects, num, den, i);
}

/// Two connected leaders are one.
proof fn lemma_one_leader(rects: Seq<Rect>, num: int, den: int, i: int, j: int)
    requires
        connected(rects, num, den, i, j),
        is_leader(rects, num, den, i),
        is_leader(rects, num, den, j),
    ensures
        i == j,
{
    lemma_connected_in_range(rects, num, den, i, j);
    lemma_connected_symmetric(rects, num, den, i, j);
}

/// The kept leaders below `upto` are the leaders below `upto` of classes
/// with more than `threshold` members, in increasing order.
pub proof fn lemma_emitted_members(rects: Seq<Rect>, num: int, den: int, threshold: int, upto: int)
    requires
        0 <= upto <= rects.len(),
    ensures
        forall|k: int|
            0 <= k < emitted(rects, num, den, threshold, upto).len() ==> {
                let l = #[trigger] emitted(rects, num, den, threshold, upto)[k];
                &&& 0 <= l < upto
                &&& is_leader(rects, num, den, l)
                &&& class_count(rects, num, den, l) > threshold
            },
        forall|k1: int, k2: int|
            0 <= k1 < k2 < emitted(rects, num, den, threshold, upto).len() ==> emitted(
                rects,
                num,
                den,
                threshold,
                upto,
            )[k1] < emitted(rects, num, den, threshold, upto)[k2],
        forall|l: int|
            0 <= l < upto && is_leader(rects, num, den, l) && class_count(rects, num, den, l)
                > threshold ==> exists|k: int|
                0 <= k < emitted(rects, num, den, threshold, upto).len() && #[trigger] emitted(
                    rects,
                    num,
                    den,
                    threshold,
                    upto,
                )[k] == l,
    decreases upto,
{
    if upto > 0 {
        lemma_emitted_members(rects, num, den, threshold, upto - 1);
        let before = emitted(rects, num, den, threshold, upto - 1);
        let now = emitted(rects, num, den, threshold, upto);
        assert forall|l: int|
            0 <= l < upto && is_leader(rects, num, den, l) && class_count(rects, num, den, l)
                > threshold implies exists|k: int| 0 <= k < now.len() && #[trigger] now[k] == l by {
            if l < upto - 1 {
                let k = choose|k: int| 0 <= k < before.len() && #[trigger] before[k] == l;
                assert(now[k] == l);
            } else {
                assert(now[now.len() - 1] == l);
            }
        }
    }
}

/// The place of the leader `l` among the kept leaders.
spec fn slot_of(leaders: Seq<int>, l: int) -> int {
    choose|p: int| 0 <= p < leaders.len() && leaders[p] == l
}

/// For each kept leader of `b`, the place among the kept leaders of `a` of
/// the leader of the same class.
spec fn slots(a: Seq<Rect>, b: Seq<Rect>, num: int, den: int, threshold: int, to: Seq<int>) -> Seq<int> {
    let la = kept_leaders(a, num, den, threshold);
    let lb = kept_leaders(b, num, den, threshold);
    Seq::new(lb.len(), |k: int| slot_of(la, leader_of(a, num, den, to[lb[k]])))
}

/// The kept leader `lb[k]` of `b` and the kept leader of `a` in its slot
/// stand for the same class: they have the same average, and going back
/// from the slot leads to `k` again.
proof fn lemma_slot(
    a: Seq<Rect>,
    b: Seq<Rect>,
    num: int,
    den: int,
    threshold: int,
    to: Seq<int>,
    back: Seq<int>,
    k: int,
)
    requires
        rearranges(a, b, to, back),
        0 <= k < kept_leaders(b, num, den, threshold).len(),
    ensures
        ({
            let la = kept_leaders(a, num, den, threshold);
            let lb = kept_leaders(b, num, den, threshold);
            let p = slots(a, b, num, den, threshold, to)[k];
            &&& 0 <= p < la.len()
            &&& class_average(a, num, den, la[p]) == class_average(b, num, den, lb[k])
            &&& slots(b, a, num, den, threshold, back)[p] == k
        }),
{
    let n = a.len() as int;
    let la = kept_leaders(a, num, den, threshold);
    let lb = kept_leaders(b, num, den, threshold);
    lemma_rearranged_multiset(a, b, to, back);
    lemma_rearranges_symmetric(a, b, to, back);
    lemma_emitted_members(a, num, den, threshold, n);
    lemma_emitted_members(b, num, den, threshold, n);
    let j = lb[k];
    assert(0 <= j < n && is_leader(b, num, den, j) && class_count(b, num, den, j) > threshold);
    let i = to[j];
    let l = leader_of(a, num, den, i);
    lemma_leader_of(a, num, den, i);
    lemma_totals_of_connected(a, num, den, l, i, n);
    lemma_totals_rearranged(a, b, num, den, to, back, j);
    assert(class_count(a, num, den, l) > threshold);
    let p = slot_of(la, l);
    assert(0 <= p < la.len() && la[p] == l);
    // back from the slot
    let j2 = back[l];
    let l2 = leader_of(b, num, den, j2);
    lemma_leader_of(b, num, den, j2);
    lemma_connected_rearranged(b, a, num, den, back, to, l, i);
    assert(back[i] == j);
    assert(connected(b, num, den, j2, j));
    lemma_connected_transitive(b, num, den, l2, j2, j);
    lemma_one_leader(b, num, den, l2, j);
    let q = slot_of(lb, l2);
    assert(0 <= q < lb.len() && lb[q] == j);
    if q < k {
        assert(lb[q] < lb[k]);
    } else if k < q {
        assert(lb[k] < lb[q]);
    }
}

/// Grouping the same rectangles in another order gives the same averages,
/// each as often, whatever the threshold and the tolerance.
pub proof fn lemma_grouping_ignores_order(a: Seq<Rect>, b: Seq<Rect>, num: int, den: int, threshold: int)
    requires
        a.to_multiset() == b.to_multiset(),
    ensures
        grouped(a, num, den, threshold).to_multiset() == grouped(b, num, den, threshold).to_multiset(),
        grouped(a, num, den, threshold).len() == grouped(b, num, den, threshold).len(),
{
    let (to, back) = lemma_multiset_rearrangement(a, b);
    lemma_rearranges_symmetric(a, b, to, back);
    let out_a = grouped(a, num, den, threshold);
    let out_b = grouped(b, num, den, threshold);
    let into_a = slots(a, b, num, den, threshold, to);
    let into_b = slots(b, a, num, den, threshold, back);
    assert forall|k: int| 0 <= k < out_b.len() implies 0 <= #[trigger] into_a[k] < out_a.len()
        && into_b[into_a[k]] == k && out_b[k] == out_a[into_a[k]] by {
        lemma_slot(a, b, num, den, threshold, to, back, k);
    }
    assert forall|p: int| 0 <= p < out_a.len() implies 0 <= #[trigger] into_b[p] < out_b.len()
        && into_a[into_b[p]] == p by {
        lemma_slot(b, a, num, den, threshold, back, to, p);
    }
    lemma_rearranged_multiset(out_a, out_b, into_a, into_b);
}

} // verus!
