//! Connected components of a list of rectangles under the similarity
//! predicate: two rectangles fall in one class when a chain of pairwise
//! similar rectangles of the list leads from one to the other.

use vstd::prelude::*;
use crate::disjoint::DisjointSets;
use crate::geometry::{similar, Rect, SimilarRects};

verus! {

/// `p` is a non-empty chain of indices into `rects` in which each index is
/// similar to the next.
pub open spec fn is_chain(rects: Seq<Rect>, num: int, den: int, p: Seq<int>) -> bool {
    &&& p.len() >= 1
    &&& forall|k: int| 0 <= k < p.len() ==> 0 <= #[trigger] p[k] < rects.len()
    &&& forall|k: int|
        0 <= k < p.len() - 1 ==> similar(num, den, rects[#[trigger] p[k]], rects[p[k + 1]])
}

/// `p` is a chain from `i` to `j`.
pub open spec fn chain_between(rects: Seq<Rect>, num: int, den: int, p: Seq<int>, i: int, j: int) -> bool {
    is_chain(rects, num, den, p) && p[0] == i && p[p.len() - 1] == j
}

/// The indices `i` and `j` lie in one class.
pub open spec fn connected(rects: Seq<Rect>, num: int, den: int, i: int, j: int) -> bool {
    exists|p: Seq<int>| #[trigger] chain_between(rects, num, den, p, i, j)
}

/// Similarity is symmetric.
pub proof fn lemma_similar_symmetric(num: int, den: int, r1: Rect, r2: Rect)
    ensures
        similar(num, den, r1, r2) == similar(num, den, r2, r1),
{
}

/// Every index of the list is connected to itself.
pub proof fn lemma_connected_reflexive(rects: Seq<Rect>, num: int, den: int, i: int)
    requires
        0 <= i < rects.len(),
    ensures
        connected(rects, num, den, i, i),
{
    let p = seq![i];
    assert(chain_between(rects, num, den, p, i, i));
}

/// Connected indices are indices of the list.
pub proof fn lemma_connected_in_range(rects: Seq<Rect>, num: int, den: int, i: int, j: int)
    requires
        connected(rects, num, den, i, j),
    ensures
        0 <= i < rects.len(),
        0 <= j < rects.len(),
{
    let p = choose|p: Seq<int>| #[trigger] chain_between(rects, num, den, p, i, j);
    assert(0 <= p[0] < rects.len());
    assert(0 <= p[p.len() - 1] < rects.len());
}

/// Two similar rectangles of the list are connected.
pub proof fn lemma_connected_step(rects: Seq<Rect>, num: int, den: int, i: int, j: int)
    requires
        0 <= i < rects.len(),
        0 <= j < rects.len(),
        similar(num, den, rects[i], rects[j]),
    ensures
        connected(rects, num, den, i, j),
{
    let p = seq![i, j];
    assert(chain_between(rects, num, den, p, i, j));
}

/// Connectedness is symmetric.
pub proof fn lemma_connected_symmetric(rects: Seq<Rect>, num: int, den: int, i: int, j: int)
    requires
        connected(rects, num, den, i, j),
    ensures
        connected(rects, num, den, j, i),
{
    let p = choose|p: Seq<int>| #[trigger] chain_between(rects, num, den, p, i, j);
    let n = p.len() as int;
    let q = Seq::new(p.len(), |k: int| p[n - 1 - k]);
    assert forall|k: int| 0 <= k < q.len() implies 0 <= #[trigger] q[k] < rects.len() by {
        assert(0 <= p[n - 1 - k] < rects.len());
    }
    assert forall|k: int| 0 <= k < q.len() - 1 implies similar(
        num,
        den,
        rects[#[trigger] q[k]],
        rects[q[k + 1]],
    ) by {
        let m = n - 2 - k;
        assert(similar(num, den, rects[p[m]], rects[p[m + 1]]));
        lemma_similar_symmetric(num, den, rects[p[m]], rects[p[m + 1]]);
    }
    assert(chain_between(rects, num, den, q, j, i));
}

/// Connectedness is transitive.
pub proof fn lemma_connected_transitive(rects: Seq<Rect>, num: int, den: int, i: int, j: int, k: int)
    requires
        connected(rects, num, den, i, j),
        connected(rects, num, den, j, k),
    ensures
        connected(rects, num, den, i, k),
{
    let p = choose|p: Seq<int>| #[trigger] chain_between(rects, num, den, p, i, j);
    let q = choose|q: Seq<int>| #[trigger] chain_between(rects, num, den, q, j, k);
    let n = p.len() as int;
    let r = Seq::new((p.len() + q.len() - 1) as nat, |t: int| if t < n { p[t] } else { q[t - n + 1] });
    assert forall|t: int| 0 <= t < r.len() implies 0 <= #[trigger] r[t] < rects.len() by {
        if t < n {
            assert(0 <= p[t] < rects.len());
        } else {
            assert(0 <= q[t - n + 1] < rects.len());
        }
    }
    assert forall|t: int| 0 <= t < r.len() - 1 implies similar(
        num,
        den,
        rects[#[trigger] r[t]],
        rects[r[t + 1]],
    ) by {
        if t < n - 1 {
            assert(similar(num, den, rects[p[t]], rects[p[t + 1]]));
        } else if t == n - 1 {
            assert(similar(num, den, rects[q[0]], rects[q[1]]));
        } else {
            let u = t - n + 1;
            assert(similar(num, den, rects[q[u]], rects[q[u + 1]]));
        }
    }
    assert(chain_between(rects, num, den, r, i, k));
}

/// A labelling under which similar rectangles share a label gives every
/// chain one label.
proof fn lemma_chain_one_label(rects: Seq<Rect>, num: int, den: int, label: Seq<int>, p: Seq<int>, k: int)
    requires
        label.len() == rects.len(),
        is_chain(rects, num, den, p),
        0 <= k < p.len(),
        forall|a: int, b: int|
            0 <= a < rects.len() && 0 <= b < rects.len() && similar(num, den, rects[a], rects[b])
                ==> label[a] == label[b],
    ensures
        label[p[0]] == label[p[k]],
    decreases k,
{
    if k > 0 {
        lemma_chain_one_label(rects, num, den, label, p, k - 1);
        assert(0 <= p[k - 1] < rects.len());
        assert(0 <= p[k] < rects.len());
        assert(similar(num, den, rects[p[k - 1]], rects[p[k - 1 + 1]]));
    }
}

/// `label` names the classes of `rects`: two indices carry the same label
/// exactly when they are connected, and each label is the index of a member
/// of the class it names.
pub open spec fn labels_classes(rects: Seq<Rect>, num: int, den: int, label: Seq<int>) -> bool {
    &&& label.len() == rects.len()
    &&& forall|i: int|
        0 <= i < rects.len() ==> 0 <= #[trigger] label[i] < rects.len() && label[label[i]] == label[i]
    &&& forall|i: int, j: int|
        0 <= i < rects.len() && 0 <= j < rects.len() ==> ((#[trigger] label[i] == #[trigger] label[j])
            <==> connected(rects, num, den, i, j))
}

/// The labels of a `Vec<usize>` as integers.
pub open spec fn as_ints(v: Seq<usize>) -> Seq<int> {
    Seq::new(v.len(), |i: int| v[i] as int)
}

/// Splits `rects` into its classes under `eps`: the result gives each index
/// the label of its class.
pub fn partition(rects: &Vec<Rect>, eps: &SimilarRects) -> (labels: Vec<usize>)
    ensures
        labels_classes(rects@, eps.eps_num as int, eps.eps_den as int, as_ints(labels@)),
{
    let n: usize = rects.len();
    let ghost num = eps.eps_num as int;
    let ghost den = eps.eps_den as int;
    let mut sets = DisjointSets::new(n);
    proof {
        assert forall|a: int, b: int| 0 <= a < n && 0 <= b < n && sets@[a] == sets@[b] implies connected(
            rects@,
            num,
            den,
            a,
            b,
        ) by {
            lemma_connected_reflexive(rects@, num, den, a);
        }
    }
    let mut i: usize = 0;
    while i < n
        invariant
            i <= n,
            n == rects@.len(),
            num == eps.eps_num as int,
            den == eps.eps_den as int,
            sets.wf(),
            sets@.len() == n,
            forall|a: int, b: int|
                0 <= a < n && 0 <= b < n && sets@[a] == sets@[b] ==> connected(rects@, num, den, a, b),
            forall|a: int, b: int|
                0 <= a < i && a < b < n && similar(num, den, rects@[a], rects@[b]) ==> sets@[a]
                    == sets@[b],
        decreases n - i,
    {
        let mut j: usize = i + 1;
        while j < n
            invariant
                i < n,
                i < j <= n,
                n == rects@.len(),
                    num == eps.eps_num as int,
                den == eps.eps_den as int,
                sets.wf(),
                sets@.len() == n,
                forall|a: int, b: int|
                    0 <= a < n && 0 <= b < n && sets@[a] == sets@[b] ==> connected(
                        rects@,
                        num,
                        den,
                        a,
                        b,
                    ),
                forall|a: int, b: int|
                    0 <= a < i && a < b < n && similar(num, den, rects@[a], rects@[b]) ==> sets@[a]
                        == sets@[b],
                forall|b: int|
                    i < b < j && similar(num, den, rects@[i as int], rects@[b]) ==> sets@[i as int]
                        == sets@[b],
            decreases n - j,
        {
            if eps.test(&rects[i], &rects[j]) {
                let ghost before = sets@;
                sets.union(i, j);
                proof {
                    let after = sets@;
                    lemma_connected_step(rects@, num, den, i as int, j as int);
                    lemma_connected_symmetric(rects@, num, den, i as int, j as int);
                    assert forall|a: int, b: int|
                        0 <= a < n && 0 <= b < n && after[a] == after[b] implies connected(
                        rects@,
                        num,
                        den,
                        a,
                        b,
                    ) by {
                        lemma_merge_sound(rects@, num, den, before, after, i as int, j as int, a, b);
                    }
                    assert forall|a: int, b: int|
                        0 <= a < i && a < b < n && similar(
                            num,
                            den,
                            rects@[a],
                            rects@[b],
                        ) implies after[a] == after[b] by {
                        assert(before[a] == before[b]);
                    }
                    assert forall|b: int|
                        i < b < j + 1 && similar(
                            num,
                            den,
                            rects@[i as int],
                            rects@[b],
                        ) implies after[i as int] == after[b] by {
                        if b < j {
                            assert(before[i as int] == before[b]);
                        }
                    }
                }
            }
            j += 1;
        }
        i += 1;
    }
    let ghost classes = sets@;
    let mut labels: Vec<usize> = Vec::new();
    let mut k: usize = 0;
    while k < n
        invariant
            k <= n,
            sets.wf(),
            sets@ == classes,
            classes.len() == n,
            labels@.len() == k,
            forall|t: int| 0 <= t < k ==> labels@[t] as int == classes[t],
        decreases n - k,
    {
        let r: usize = sets.find(k);
        labels.push(r);
        k += 1;
    }
    proof {
        let label = as_ints(labels@);
        assert(label =~= classes);
        sets.lemma_representatives();
        assert forall|a: int, b: int|
            0 <= a < n && 0 <= b < n && similar(num, den, rects@[a], rects@[b]) implies label[a]
            == label[b] by {
            lemma_similar_symmetric(num, den, rects@[a], rects@[b]);
            if a < b {
                assert(classes[a] == classes[b]);
            } else if b < a {
                assert(classes[b] == classes[a]);
            }
        }
        assert forall|a: int, b: int| 0 <= a < n && 0 <= b < n implies ((#[trigger] label[a]
            == #[trigger] label[b]) <==> connected(rects@, num, den, a, b)) by {
            if connected(rects@, num, den, a, b) {
                let p = choose|p: Seq<int>| #[trigger] chain_between(rects@, num, den, p, a, b);
                lemma_chain_one_label(rects@, num, den, label, p, p.len() - 1);
            }
        }
    }
    labels
}

/// After the classes of the similar pair `i`, `j` are merged, two indices of
/// one class are still connected.
proof fn lemma_merge_sound(
    rects: Seq<Rect>,
    num: int,
    den: int,
    before: Seq<int>,
    after: Seq<int>,
    i: int,
    j: int,
    a: int,
    b: int,
)
    requires
        before.len() == rects.len(),
        after.len() == rects.len(),
        0 <= i < rects.len(),
        0 <= j < rects.len(),
        0 <= a < rects.len(),
        0 <= b < rects.len(),
        connected(rects, num, den, i, j),
        connected(rects, num, den, j, i),
        forall|x: int, y: int|
            0 <= x < rects.len() && 0 <= y < rects.len() && before[x] == before[y] ==> connected(
                rects,
                num,
                den,
                x,
                y,
            ),
        forall|k: int|
            0 <= k < rects.len() ==> #[trigger] after[k] == if before[k] == before[i] || before[k]
                == before[j] {
                after[i]
            } else {
                before[k]
            },
        after[i] == before[i] || after[i] == before[j],
        after[a] == after[b],
    ensures
        connected(rects, num, den, a, b),
{
    let a_moved = before[a] == before[i] || before[a] == before[j];
    let b_moved = before[b] == before[i] || before[b] == before[j];
    assert(after[a] == if a_moved { after[i] } else { before[a] });
    assert(after[b] == if b_moved { after[i] } else { before[b] });
    if a_moved && b_moved {
        // a -- (i or j) -- (j or i) -- b
        if before[a] == before[i] {
            if before[b] == before[i] {
                assert(before[a] == before[b]);
            } else {
                lemma_connected_transitive(rects, num, den, a, i, j);
                lemma_connected_transitive(rects, num, den, a, j, b);
            }
        } else {
            if before[b] == before[j] {
                assert(before[a] == before[b]);
            } else {
                lemma_connected_transitive(rects, num, den, a, j, i);
                lemma_connected_transitive(rects, num, den, a, i, b);
            }
        }
    } else if !a_moved && !b_moved {
        assert(before[a] == before[b]);
    } else {
        // exactly one moved: the other would carry the label of i or of j
        assert(false);
    }
}

} // verus!
