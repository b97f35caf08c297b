//! Merging of raw detections: each class of connected rectangles that has
//! more members than a threshold becomes one averaged rectangle.

use vstd::prelude::*;
use vstd::arithmetic::div_mod::{lemma_fundamental_div_mod, lemma_fundamental_div_mod_converse};
use crate::error::DetectError;
use crate::geometry::{Rect, SimilarRects};
use crate::partition::{as_ints, connected, labels_classes, partition};

verus! {

/// Member count and coordinate sums of a class.
pub struct ClassTotals {
    pub count: int,
    pub x: int,
    pub y: int,
    pub width: int,
    pub height: int,
}

impl ClassTotals {
    pub open spec fn zero() -> ClassTotals {
        ClassTotals { count: 0, x: 0, y: 0, width: 0, height: 0 }
    }

    pub open spec fn plus(self, r: Rect) -> ClassTotals {
        ClassTotals {
            count: self.count + 1,
            x: self.x + r.x,
            y: self.y + r.y,
            width: self.width + r.width,
            height: self.height + r.height,
        }
    }
}

/// The totals of the class of `i` over the members with index below `upto`.
pub open spec fn class_totals(rects: Seq<Rect>, num: int, den: int, i: int, upto: int) -> ClassTotals
    decreases upto,
{
    if upto <= 0 {
        ClassTotals::zero()
    } else {
        let before = class_totals(rects, num, den, i, upto - 1);
        if connected(rects, num, den, i, upto - 1) {
            before.plus(rects[upto - 1])
        } else {
            before
        }
    }
}

/// The number of members of the class of `i`.
pub open spec fn class_count(rects: Seq<Rect>, num: int, den: int, i: int) -> int {
    class_totals(rects, num, den, i, rects.len() as int).count
}

/// `sum / count` rounded to the nearest integer, a tie going to the even one.
pub open spec fn round_div(sum: int, count: int) -> int {
    let q = sum / count;
    let r = sum % count;
    if 2 * r < count {
        q
    } else if 2 * r > count {
        q + 1
    } else if q % 2 == 0 {
        q
    } else {
        q + 1
    }
}

/// The rectangle whose coordinates are the rounded averages of `t`.
pub open spec fn average_of(t: ClassTotals) -> Rect {
    Rect {
        x: round_div(t.x, t.count) as i32,
        y: round_div(t.y, t.count) as i32,
        width: round_div(t.width, t.count) as i32,
        height: round_div(t.height, t.count) as i32,
    }
}

/// The average rectangle of the class of `i`.
pub open spec fn class_average(rects: Seq<Rect>, num: int, den: int, i: int) -> Rect {
    average_of(class_totals(rects, num, den, i, rects.len() as int))
}

/// `i` is the first member of its class.
pub open spec fn is_leader(rects: Seq<Rect>, num: int, den: int, i: int) -> bool {
    forall|j: int| 0 <= j < i ==> !connected(rects, num, den, j, i)
}

/// The leaders below `upto` of the classes with more than `threshold`
/// members, in increasing order.
pub open spec fn emitted(rects: Seq<Rect>, num: int, den: int, threshold: int, upto: int) -> Seq<int>
    decreases upto,
{
    if upto <= 0 {
        Seq::empty()
    } else {
        let before = emitted(rects, num, den, threshold, upto - 1);
        if is_leader(rects, num, den, upto - 1) && class_count(rects, num, den, upto - 1) > threshold {
            before.push(upto - 1)
        } else {
            before
        }
    }
}

/// The leaders of all classes with more than `threshold` members.
pub open spec fn kept_leaders(rects: Seq<Rect>, num: int, den: int, threshold: int) -> Seq<int> {
    emitted(rects, num, den, threshold, rects.len() as int)
}

/// The result of grouping: one average rectangle for each class with more
/// than `threshold` members, the classes in the order of their first members.
pub open spec fn grouped(rects: Seq<Rect>, num: int, den: int, threshold: int) -> Seq<Rect> {
    averages_at(rects, num, den, kept_leaders(rects, num, den, threshold))
}

/// The class averages of the indices `at`, in their order.
pub open spec fn averages_at(rects: Seq<Rect>, num: int, den: int, at: Seq<int>) -> Seq<Rect> {
    Seq::new(at.len(), |k: int| class_average(rects, num, den, at[k]))
}

/// The member counts of the classes that `grouped` keeps, in the same order.
pub open spec fn grouped_counts(rects: Seq<Rect>, num: int, den: int, threshold: int) -> Seq<int> {
    let leaders = kept_leaders(rects, num, den, threshold);
    Seq::new(leaders.len(), |k: int| class_count(rects, num, den, leaders[k]))
}

/// The totals of a class lie between `count` times the least and `count`
/// times the greatest `i32`.
pub proof fn lemma_class_totals_bounds(rects: Seq<Rect>, num: int, den: int, i: int, upto: int)
    requires
        0 <= upto <= rects.len(),
    ensures
        ({
            let t = class_totals(rects, num, den, i, upto);
            &&& 0 <= t.count <= upto
            &&& i32::MIN * t.count <= t.x <= i32::MAX * t.count
            &&& i32::MIN * t.count <= t.y <= i32::MAX * t.count
            &&& i32::MIN * t.count <= t.width <= i32::MAX * t.count
            &&& i32::MIN * t.count <= t.height <= i32::MAX * t.count
        }),
    decreases upto,
{
    if upto > 0 {
        lemma_class_totals_bounds(rects, num, den, i, upto - 1);
    }
}

/// A member of a class is counted in it.
pub proof fn lemma_class_count_positive(rects: Seq<Rect>, num: int, den: int, i: int, j: int, upto: int)
    requires
        0 <= j < upto <= rects.len(),
        connected(rects, num, den, i, j),
    ensures
        class_totals(rects, num, den, i, upto).count >= 1,
    decreases upto,
{
    if j == upto - 1 {
        lemma_class_totals_bounds(rects, num, den, i, upto - 1);
    } else {
        lemma_class_count_positive(rects, num, den, i, j, upto - 1);
    }
}

/// A rounded average lies between any bounds that hold of the summands.
pub proof fn lemma_round_div_bounds(sum: int, count: int, lo: int, hi: int)
    requires
        count > 0,
        lo * count <= sum <= hi * count,
    ensures
        lo <= round_div(sum, count) <= hi,
{
    let q = sum / count;
    let r = sum % count;
    lemma_fundamental_div_mod(sum, count);
    assert(sum == count * q + r);
    assert(0 <= r < count) by {
        vstd::arithmetic::div_mod::lemma_mod_bound(sum, count);
    }
    assert(lo <= q) by (nonlinear_arith)
        requires
            count > 0,
            lo * count <= sum,
            sum == count * q + r,
            r < count,
    ;
    assert(q <= hi && (r > 0 ==> q + 1 <= hi)) by (nonlinear_arith)
        requires
            count > 0,
            sum <= hi * count,
            sum == count * q + r,
            0 <= r,
    ;
}

/// The rounded average of `count` copies of `v` is `v`.
pub proof fn lemma_round_div_exact(v: int, count: int)
    requires
        count > 0,
    ensures
        round_div(v * count, count) == v,
{
    lemma_fundamental_div_mod_converse(v * count, count, v, 0);
}

/// `sum / count` rounded to nearest, ties to even, for a sum of `count`
/// values of type `i32`.
pub fn rounded_average(sum: i128, count: usize) -> (avg: i32)
    requires
        count > 0,
        i32::MIN * count <= sum <= i32::MAX * count,
    ensures
        avg == round_div(sum as int, count as int),
{
    let c: u128 = count as u128;
    assert(0 <= 0x8000_0000 * c <= 0x8000_0000_0000_0000_0000_0000) by (nonlinear_arith)
        requires
            0 <= c <= 0xffff_ffff_ffff_ffff,
    ;
    let offset: u128 = 0x8000_0000u128 * c;
    let shifted: u128 = (sum + (offset as i128)) as u128;
    let q: u128 = shifted / c;
    let r: u128 = shifted % c;
    proof {
        lemma_fundamental_div_mod(shifted as int, c as int);
        assert(shifted == c * q + r);
        assert(sum == (q - 0x8000_0000) * c + r) by (nonlinear_arith)
            requires
                shifted == c * q + r,
                shifted == sum + 0x8000_0000 * c,
        ;
        lemma_fundamental_div_mod_converse(sum as int, c as int, q - 0x8000_0000, r as int);
        lemma_round_div_bounds(sum as int, c as int, i32::MIN as int, i32::MAX as int);
        assert(q <= 0xffff_ffff) by (nonlinear_arith)
            requires
                c > 0,
                c * q + r == shifted,
                shifted <= 0xffff_ffff * c,
                r >= 0,
        ;
        assert((q - 0x8000_0000) % 2 == 0 <==> q % 2 == 0);
    }
    let up: bool = if 2 * r < c {
        false
    } else if 2 * r > c {
        true
    } else {
        q % 2 != 0
    };
    let rounded: u128 = if up { q + 1 } else { q };
    ((rounded as i128) - 0x8000_0000i128) as i32
}

/// Running totals of one class.
#[derive(Clone, Copy)]
struct Tally {
    count: usize,
    x: i128,
    y: i128,
    width: i128,
    height: i128,
}

impl Tally {
    spec fn totals(self) -> ClassTotals {
        ClassTotals {
            count: self.count as int,
            x: self.x as int,
            y: self.y as int,
            width: self.width as int,
            height: self.height as int,
        }
    }
}

/// The totals of every class, stored at the class's label.
fn tally_classes(
    rects: &Vec<Rect>,
    labels: &Vec<usize>,
    Ghost(num): Ghost<int>,
    Ghost(den): Ghost<int>,
) -> (tallies: Vec<Tally>)
    requires
        labels_classes(rects@, num, den, as_ints(labels@)),
    ensures
        tallies@.len() == rects@.len(),
        forall|i: int|
            0 <= i < rects@.len() ==> (#[trigger] tallies@[labels@[i] as int]).totals() == class_totals(
                rects@,
                num,
                den,
                i,
                rects@.len() as int,
            ),
{
    let n: usize = rects.len();
    let ghost label = as_ints(labels@);
    let mut tallies: Vec<Tally> = Vec::new();
    let mut k: usize = 0;
    while k < n
        invariant
            k <= n,
            tallies@.len() == k,
            forall|t: int| 0 <= t < k ==> (#[trigger] tallies@[t]).totals() == ClassTotals::zero(),
        decreases n - k,
    {
        tallies.push(Tally { count: 0, x: 0, y: 0, width: 0, height: 0 });
        k += 1;
    }
    proof {
        assert forall|i: int| 0 <= i < n implies (#[trigger] tallies@[labels@[i] as int]).totals()
            == class_totals(rects@, num, den, i, 0) by {
            assert(0 <= label[i] < n);
        }
    }
    k = 0;
    while k < n
        invariant
            k <= n,
            n == rects@.len(),
            label == as_ints(labels@),
            labels_classes(rects@, num, den, label),
            tallies@.len() == n,
            forall|i: int|
                0 <= i < n ==> (#[trigger] tallies@[labels@[i] as int]).totals() == class_totals(
                    rects@,
                    num,
                    den,
                    i,
                    k as int,
                ),
        decreases n - k,
    {
        assert(0 <= label[k as int] < n);
        let l: usize = labels[k];
        let t: Tally = tallies[l];
        let r: Rect = rects[k];
        proof {
            assert(tallies@[labels@[k as int] as int].totals() == class_totals(
                rects@,
                num,
                den,
                k as int,
                k as int,
            ));
            lemma_class_totals_bounds(rects@, num, den, k as int, k as int);
            let c = t.count as int;
            assert(-0x8000_0000 * 0x1_0000_0000_0000_0000 <= i32::MIN * c && i32::MAX * c
                <= 0x8000_0000 * 0x1_0000_0000_0000_0000) by (nonlinear_arith)
                requires
                    0 <= c <= 0xffff_ffff_ffff_ffff,
            ;
        }
        let ghost before = tallies@;
        tallies.set(
            l,
            Tally {
                count: t.count + 1,
                x: t.x + r.x as i128,
                y: t.y + r.y as i128,
                width: t.width + r.width as i128,
                height: t.height + r.height as i128,
            },
        );
        proof {
            assert forall|i: int| 0 <= i < n implies (#[trigger] tallies@[labels@[i] as int]).totals()
                == class_totals(rects@, num, den, i, k + 1) by {
                assert(before[labels@[i] as int].totals() == class_totals(rects@, num, den, i, k as int));
                assert((label[i] == label[k as int]) <==> connected(rects@, num, den, i, k as int));
            }
        }
        k += 1;
    }
    tallies
}

/// The first members of the classes with more than `threshold` members.
fn select_leaders(
    rects: &Vec<Rect>,
    labels: &Vec<usize>,
    tallies: &Vec<Tally>,
    threshold: i32,
    Ghost(num): Ghost<int>,
    Ghost(den): Ghost<int>,
) -> (leaders: Vec<usize>)
    requires
        labels_classes(rects@, num, den, as_ints(labels@)),
        tallies@.len() == rects@.len(),
        forall|i: int|
            0 <= i < rects@.len() ==> (#[trigger] tallies@[labels@[i] as int]).totals() == class_totals(
                rects@,
                num,
                den,
                i,
                rects@.len() as int,
            ),
    ensures
        as_ints(leaders@) == kept_leaders(rects@, num, den, threshold as int),
        forall|k: int| 0 <= k < leaders@.len() ==> (#[trigger] leaders@[k]) < rects@.len(),
{
    let n: usize = rects.len();
    let ghost label = as_ints(labels@);
    let mut seen: Vec<bool> = Vec::new();
    let mut i: usize = 0;
    while i < n
        invariant
            i <= n,
            seen@.len() == i,
            forall|t: int| 0 <= t < i ==> !(#[trigger] seen@[t]),
        decreases n - i,
    {
        seen.push(false);
        i += 1;
    }
    let mut leaders: Vec<usize> = Vec::new();
    i = 0;
    while i < n
        invariant
            i <= n,
            n == rects@.len(),
            label == as_ints(labels@),
            labels_classes(rects@, num, den, label),
            tallies@.len() == n,
            forall|t: int|
                0 <= t < n ==> (#[trigger] tallies@[labels@[t] as int]).totals() == class_totals(
                    rects@,
                    num,
                    den,
                    t,
                    n as int,
                ),
            seen@.len() == n,
            forall|r: int|
                0 <= r < n ==> (#[trigger] seen@[r] <==> exists|j: int|
                    0 <= j < i && #[trigger] label[j] == r),
            as_ints(leaders@) == emitted(rects@, num, den, threshold as int, i as int),
            forall|k: int| 0 <= k < leaders@.len() ==> (#[trigger] leaders@[k]) < n,
        decreases n - i,
    {
        assert(0 <= label[i as int] < n);
        let l: usize = labels[i];
        let ghost seen_before = seen@;
        let ghost leaders_before = leaders@;
        let fresh: bool = !seen[l];
        proof {
            if fresh {
                assert forall|j: int| 0 <= j < i implies !connected(rects@, num, den, j, i as int) by {
                    assert((label[j] == label[i as int]) <==> connected(rects@, num, den, j, i as int));
                }
            } else {
                let j = choose|j: int| 0 <= j < i && #[trigger] label[j] == l;
                assert((label[j] == label[i as int]) <==> connected(rects@, num, den, j, i as int));
            }
            assert(fresh == is_leader(rects@, num, den, i as int));
            assert(tallies@[labels@[i as int] as int].totals() == class_totals(
                rects@,
                num,
                den,
                i as int,
                n as int,
            ));
        }
        if fresh {
            seen.set(l, true);
            let count: usize = tallies[l].count;
            if threshold < 0 || count > threshold as usize {
                leaders.push(i);
                proof {
                    assert(as_ints(leaders@) =~= as_ints(leaders_before).push(i as int));
                }
            }
        }
        proof {
            assert forall|r: int| 0 <= r < n implies (#[trigger] seen@[r] <==> exists|j: int|
                0 <= j < i + 1 && #[trigger] label[j] == r) by {
                if seen@[r] {
                    if seen_before[r] {
                        let j = choose|j: int| 0 <= j < i && #[trigger] label[j] == r;
                        assert(0 <= j < i + 1 && label[j] == r);
                    } else {
                        assert(label[i as int] == r);
                    }
                } else {
                    assert(!seen_before[r]);
                    assert forall|j: int| 0 <= j < i + 1 implies #[trigger] label[j] != r by {
                        if j < i {
                        } else {
                            assert(r != l);
                        }
                    }
                }
            }
        }
        i += 1;
    }
    leaders
}

/// The classes of `rects`, their totals, and the leaders of those with more
/// than `threshold` members.
fn classify(rects: &Vec<Rect>, threshold: i32, eps: &SimilarRects) -> (out: (
    Vec<usize>,
    Vec<Tally>,
    Vec<usize>,
))
    ensures
        labels_classes(rects@, eps.eps_num as int, eps.eps_den as int, as_ints(out.0@)),
        out.1@.len() == rects@.len(),
        forall|i: int|
            0 <= i < rects@.len() ==> (#[trigger] out.1@[out.0@[i] as int]).totals() == class_totals(
                rects@,
                eps.eps_num as int,
                eps.eps_den as int,
                i,
                rects@.len() as int,
            ),
        as_ints(out.2@) == kept_leaders(
            rects@,
            eps.eps_num as int,
            eps.eps_den as int,
            threshold as int,
        ),
        forall|k: int| 0 <= k < out.2@.len() ==> (#[trigger] out.2@[k]) < rects@.len(),
{
    let labels = partition(rects, eps);
    let tallies = tally_classes(rects, &labels, Ghost(eps.eps_num as int), Ghost(eps.eps_den as int));
    let leaders = select_leaders(
        rects,
        &labels,
        &tallies,
        threshold,
        Ghost(eps.eps_num as int),
        Ghost(eps.eps_den as int),
    );
    (labels, tallies, leaders)
}

/// The average rectangle of a class from its totals.
fn average_rect(t: &Tally) -> (r: Rect)
    requires
        t.count > 0,
        i32::MIN * t.count <= t.x <= i32::MAX * t.count,
        i32::MIN * t.count <= t.y <= i32::MAX * t.count,
        i32::MIN * t.count <= t.width <= i32::MAX * t.count,
        i32::MIN * t.count <= t.height <= i32::MAX * t.count,
    ensures
        r == average_of(t.totals()),
{
    Rect {
        x: rounded_average(t.x, t.count),
        y: rounded_average(t.y, t.count),
        width: rounded_average(t.width, t.count),
        height: rounded_average(t.height, t.count),
    }
}

/// The averages of the classes of the given leaders.
fn collect_averages(
    rects: &Vec<Rect>,
    labels: &Vec<usize>,
    tallies: &Vec<Tally>,
    leaders: &Vec<usize>,
    Ghost(num): Ghost<int>,
    Ghost(den): Ghost<int>,
) -> (out: Vec<Rect>)
    requires
        labels_classes(rects@, num, den, as_ints(labels@)),
        tallies@.len() == rects@.len(),
        forall|i: int|
            0 <= i < rects@.len() ==> (#[trigger] tallies@[labels@[i] as int]).totals() == class_totals(
                rects@,
                num,
                den,
                i,
                rects@.len() as int,
            ),
        forall|t: int| 0 <= t < leaders@.len() ==> (#[trigger] leaders@[t]) < rects@.len(),
    ensures
        out@ == averages_at(rects@, num, den, as_ints(leaders@)),
{
    let mut out: Vec<Rect> = Vec::new();
    let mut k: usize = 0;
    while k < leaders.len()
        invariant
            k <= leaders@.len(),
            labels_classes(rects@, num, den, as_ints(labels@)),
            tallies@.len() == rects@.len(),
            forall|i: int|
                0 <= i < rects@.len() ==> (#[trigger] tallies@[labels@[i] as int]).totals()
                    == class_totals(rects@, num, den, i, rects@.len() as int),
            forall|t: int| 0 <= t < leaders@.len() ==> (#[trigger] leaders@[t]) < rects@.len(),
            out@.len() == k,
            forall|t: int|
                0 <= t < k ==> #[trigger] out@[t] == class_average(rects@, num, den, leaders@[t] as int),
        decreases leaders@.len() - k,
    {
        let i: usize = leaders[k];
        assert(0 <= as_ints(labels@)[i as int] < rects@.len());
        let t: Tally = tallies[labels[i]];
        proof {
            assert(tallies@[labels@[i as int] as int].totals() == class_totals(
                rects@,
                num,
                den,
                i as int,
                rects@.len() as int,
            ));
            lemma_class_totals_bounds(rects@, num, den, i as int, rects@.len() as int);
            crate::partition::lemma_connected_reflexive(rects@, num, den, i as int);
            lemma_class_count_positive(rects@, num, den, i as int, i as int, rects@.len() as int);
        }
        out.push(average_rect(&t));
        k += 1;
    }
    assert(out@ =~= averages_at(rects@, num, den, as_ints(leaders@)));
    out
}

/// The member counts of the classes of the given leaders.
fn collect_counts(
    rects: &Vec<Rect>,
    labels: &Vec<usize>,
    tallies: &Vec<Tally>,
    leaders: &Vec<usize>,
    Ghost(num): Ghost<int>,
    Ghost(den): Ghost<int>,
) -> (out: Vec<i32>)
    requires
        rects@.len() <= i32::MAX,
        labels_classes(rects@, num, den, as_ints(labels@)),
        tallies@.len() == rects@.len(),
        forall|i: int|
            0 <= i < rects@.len() ==> (#[trigger] tallies@[labels@[i] as int]).totals() == class_totals(
                rects@,
                num,
                den,
                i,
                rects@.len() as int,
            ),
        forall|t: int| 0 <= t < leaders@.len() ==> (#[trigger] leaders@[t]) < rects@.len(),
    ensures
        out@.len() == leaders@.len(),
        forall|t: int|
            0 <= t < out@.len() ==> #[trigger] out@[t] == class_count(rects@, num, den, leaders@[t] as int),
{
    let mut out: Vec<i32> = Vec::new();
    let mut k: usize = 0;
    while k < leaders.len()
        invariant
            k <= leaders@.len(),
            rects@.len() <= i32::MAX,
            labels_classes(rects@, num, den, as_ints(labels@)),
            tallies@.len() == rects@.len(),
            forall|i: int|
                0 <= i < rects@.len() ==> (#[trigger] tallies@[labels@[i] as int]).totals()
                    == class_totals(rects@, num, den, i, rects@.len() as int),
            forall|t: int| 0 <= t < leaders@.len() ==> (#[trigger] leaders@[t]) < rects@.len(),
            out@.len() == k,
            forall|t: int|
                0 <= t < k ==> #[trigger] out@[t] == class_count(rects@, num, den, leaders@[t] as int),
        decreases leaders@.len() - k,
    {
        let i: usize = leaders[k];
        assert(0 <= as_ints(labels@)[i as int] < rects@.len());
        let t: Tally = tallies[labels[i]];
        proof {
            assert(tallies@[labels@[i as int] as int].totals() == class_totals(
                rects@,
                num,
                den,
                i as int,
                rects@.len() as int,
            ));
            lemma_class_totals_bounds(rects@, num, den, i as int, rects@.len() as int);
        }
        out.push(t.count as i32);
        k += 1;
    }
    out
}

/// Groups the candidate rectangles of `rect_list`.
///
/// The list is split into its classes under `eps`. Each class with more than
/// `group_threshold` members is replaced by the rounded average of its
/// members; the other classes are dropped. The averages stand in the order of
/// the first members of their classes.
pub fn group_rectangle(rect_list: &mut Vec<Rect>, group_threshold: i32, eps: SimilarRects)
    ensures
        final(rect_list)@ == grouped(
            old(rect_list)@,
            eps.eps_num as int,
            eps.eps_den as int,
            group_threshold as int,
        ),
{
    let (labels, tallies, leaders) = classify(rect_list, group_threshold, &eps);
    let out = collect_averages(
        rect_list,
        &labels,
        &tallies,
        &leaders,
        Ghost(eps.eps_num as int),
        Ghost(eps.eps_den as int),
    );
    *rect_list = out;
}

/// Groups the candidate rectangles of `rect_list` and reports, in `weights`,
/// how many candidates went into each rectangle of the result.
///
/// Refused, with nothing changed, when the list is too long for a count to
/// fit the weights' type.
pub fn group_rectangle_weights(
    rect_list: &mut Vec<Rect>,
    weights: &mut Vec<i32>,
    group_threshold: i32,
    eps: SimilarRects,
) -> (res: Result<(), DetectError>)
    ensures
        old(rect_list)@.len() > i32::MAX ==> res == Err::<(), DetectError>(DetectError::InvalidInput)
            && final(rect_list)@ == old(rect_list)@ && final(weights)@ == old(weights)@,
        old(rect_list)@.len() <= i32::MAX ==> res.is_ok() && final(rect_list)@ == grouped(
            old(rect_list)@,
            eps.eps_num as int,
            eps.eps_den as int,
            group_threshold as int,
        ) && same_ints(
            final(weights)@,
            grouped_counts(
                old(rect_list)@,
                eps.eps_num as int,
                eps.eps_den as int,
                group_threshold as int,
            ),
        ),
{
    if rect_list.len() > i32::MAX as usize {
        return Err(DetectError::InvalidInput);
    }
    let ghost num = eps.eps_num as int;
    let ghost den = eps.eps_den as int;
    let (labels, tallies, leaders) = classify(rect_list, group_threshold, &eps);
    let out = collect_averages(rect_list, &labels, &tallies, &leaders, Ghost(num), Ghost(den));
    let counts = collect_counts(rect_list, &labels, &tallies, &leaders, Ghost(num), Ghost(den));
    proof {
        let kept = kept_leaders(rect_list@, num, den, group_threshold as int);
        assert forall|k: int| 0 <= k < counts@.len() implies counts@[k] as int == grouped_counts(
            rect_list@,
            num,
            den,
            group_threshold as int,
        )[k] by {
            assert(as_ints(leaders@)[k] == kept[k]);
        }
    }
    *rect_list = out;
    *weights = counts;
    Ok(())
}

/// The list `v` holds the integers `want`.
pub open spec fn same_ints(v: Seq<i32>, want: Seq<int>) -> bool {
    v.len() == want.len() && forall|k: int| 0 <= k < v.len() ==> #[trigger] v[k] as int == want[k]
}

/// Of two pairs of a level and a weight, the one with the higher level; at
/// equal levels, the one with the greater weight.
pub open spec fn stronger(a: (int, int), b: (int, int)) -> (int, int) {
    if b.0 > a.0 || (b.0 == a.0 && b.1 > a.1) {
        b
    } else {
        a
    }
}

/// The strongest pair of level and weight among the members below `upto` of
/// the class of `i`; `None` while the class has no member below `upto`.
pub open spec fn class_strongest(
    rects: Seq<Rect>,
    num: int,
    den: int,
    levels: Seq<i32>,
    weights: Seq<i64>,
    i: int,
    upto: int,
) -> Option<(int, int)>
    decreases upto,
{
    if upto <= 0 {
        None
    } else {
        let before = class_strongest(rects, num, den, levels, weights, i, upto - 1);
        if connected(rects, num, den, i, upto - 1) {
            let own = (levels[upto - 1] as int, weights[upto - 1] as int);
            match before {
                None => Some(own),
                Some(b) => Some(stronger(b, own)),
            }
        } else {
            before
        }
    }
}

/// The strongest level and weight of each class that `grouped` keeps, in the
/// same order.
pub open spec fn grouped_strongest(
    rects: Seq<Rect>,
    num: int,
    den: int,
    threshold: int,
    levels: Seq<i32>,
    weights: Seq<i64>,
) -> Seq<Option<(int, int)>> {
    let leaders = kept_leaders(rects, num, den, threshold);
    Seq::new(
        leaders.len(),
        |k: int| class_strongest(rects, num, den, levels, weights, leaders[k], rects.len() as int),
    )
}

/// The lists `levels` and `weights` hold the pairs `want`.
pub open spec fn same_pairs(levels: Seq<i32>, weights: Seq<i64>, want: Seq<Option<(int, int)>>) -> bool {
    &&& levels.len() == want.len()
    &&& weights.len() == want.len()
    &&& forall|k: int|
        0 <= k < want.len() ==> #[trigger] want[k] == Some((levels[k] as int, weights[k] as int))
}

spec fn pair_view(p: Option<(i32, i64)>) -> Option<(int, int)> {
    match p {
        None => None,
        Some(v) => Some((v.0 as int, v.1 as int)),
    }
}

/// The strongest level and weight of every class, stored at the class's
/// label.
fn strongest_of_classes(
    rects: &Vec<Rect>,
    labels: &Vec<usize>,
    levels: &Vec<i32>,
    weights: &Vec<i64>,
    Ghost(num): Ghost<int>,
    Ghost(den): Ghost<int>,
) -> (best: Vec<Option<(i32, i64)>>)
    requires
        labels_classes(rects@, num, den, as_ints(labels@)),
        levels@.len() == rects@.len(),
        weights@.len() == rects@.len(),
    ensures
        best@.len() == rects@.len(),
        forall|i: int|
            0 <= i < rects@.len() ==> pair_view(#[trigger] best@[labels@[i] as int]) == class_strongest(
                rects@,
                num,
                den,
                levels@,
                weights@,
                i,
                rects@.len() as int,
            ),
{
    let n: usize = rects.len();
    let ghost label = as_ints(labels@);
    let mut best: Vec<Option<(i32, i64)>> = Vec::new();
    let mut k: usize = 0;
    while k < n
        invariant
            k <= n,
            best@.len() == k,
            forall|t: int| 0 <= t < k ==> (#[trigger] best@[t]).is_none(),
        decreases n - k,
    {
        best.push(None);
        k += 1;
    }
    proof {
        assert forall|i: int| 0 <= i < n implies pair_view(#[trigger] best@[labels@[i] as int])
            == class_strongest(rects@, num, den, levels@, weights@, i, 0) by {
            assert(0 <= label[i] < n);
        }
    }
    k = 0;
    while k < n
        invariant
            k <= n,
            n == rects@.len(),
            levels@.len() == n,
            weights@.len() == n,
            label == as_ints(labels@),
            labels_classes(rects@, num, den, label),
            best@.len() == n,
            forall|i: int|
                0 <= i < n ==> pair_view(#[trigger] best@[labels@[i] as int]) == class_strongest(
                    rects@,
                    num,
                    den,
                    levels@,
                    weights@,
                    i,
                    k as int,
                ),
        decreases n - k,
    {
        assert(0 <= label[k as int] < n);
        let l: usize = labels[k];
        let own: (i32, i64) = (levels[k], weights[k]);
        let ghost before = best@;
        let now: (i32, i64) = match best[l] {
            None => own,
            Some(b) => if own.0 > b.0 || (own.0 == b.0 && own.1 > b.1) {
                own
            } else {
                b
            },
        };
        best.set(l, Some(now));
        proof {
            assert forall|i: int| 0 <= i < n implies pair_view(#[trigger] best@[labels@[i] as int])
                == class_strongest(rects@, num, den, levels@, weights@, i, k + 1) by {
                assert(pair_view(before[labels@[i] as int]) == class_strongest(
                    rects@,
                    num,
                    den,
                    levels@,
                    weights@,
                    i,
                    k as int,
                ));
                assert((label[i] == label[k as int]) <==> connected(rects@, num, den, i, k as int));
            }
        }
        k += 1;
    }
    best
}

/// The strongest pair of a class is the pair of one of its members.
pub proof fn lemma_strongest_is_a_member(
    rects: Seq<Rect>,
    num: int,
    den: int,
    levels: Seq<i32>,
    weights: Seq<i64>,
    i: int,
    upto: int,
)
    requires
        0 <= upto <= rects.len(),
        class_strongest(rects, num, den, levels, weights, i, upto).is_some(),
    ensures
        exists|j: int|
            0 <= j < upto && weights[j] as int == class_strongest(
                rects,
                num,
                den,
                levels,
                weights,
                i,
                upto,
            )->Some_0.1 && levels[j] as int == class_strongest(
                rects,
                num,
                den,
                levels,
                weights,
                i,
                upto,
            )->Some_0.0,
    decreases upto,
{
    if upto > 0 {
        let before = class_strongest(rects, num, den, levels, weights, i, upto - 1);
        let now = class_strongest(rects, num, den, levels, weights, i, upto)->Some_0;
        if before.is_some() {
            lemma_strongest_is_a_member(rects, num, den, levels, weights, i, upto - 1);
        }
        if before.is_some() && now == before->Some_0 {
            let j = choose|j: int|
                0 <= j < upto - 1 && weights[j] as int == before->Some_0.1 && levels[j] as int
                    == before->Some_0.0;
            assert(0 <= j < upto && weights[j] as int == now.1 && levels[j] as int == now.0);
        } else {
            assert(weights[upto - 1] as int == now.1 && levels[upto - 1] as int == now.0);
        }
    }
}

/// A member of a class gives the class a strongest pair.
proof fn lemma_class_strongest_some(
    rects: Seq<Rect>,
    num: int,
    den: int,
    levels: Seq<i32>,
    weights: Seq<i64>,
    i: int,
    j: int,
    upto: int,
)
    requires
        0 <= j < upto <= rects.len(),
        connected(rects, num, den, i, j),
    ensures
        class_strongest(rects, num, den, levels, weights, i, upto).is_some(),
    decreases upto,
{
    if j < upto - 1 {
        lemma_class_strongest_some(rects, num, den, levels, weights, i, j, upto - 1);
    }
}

/// Groups the candidate rectangles of `rect_list`, each of which comes with
/// a level in `reject_levels` and a weight in `level_weights`, and reports
/// for each rectangle of the result the highest level among the candidates
/// that went into it, and the greatest weight among those of that level.
///
/// Weights are fixed-point numbers in a unit of the caller's choice; only
/// their order is used. Refused, with nothing changed, when the three lists
/// differ in length.
pub fn group_rectangles_weights_rejects(
    rect_list: &mut Vec<Rect>,
    reject_levels: &mut Vec<i32>,
    level_weights: &mut Vec<i64>,
    group_threshold: i32,
    eps: SimilarRects,
) -> (res: Result<(), DetectError>)
    ensures
        res.is_ok() <==> old(reject_levels)@.len() == old(rect_list)@.len() && old(level_weights)@.len()
            == old(rect_list)@.len(),
        res.is_err() ==> res == Err::<(), DetectError>(DetectError::InvalidInput) && final(rect_list)@
            == old(rect_list)@ && final(reject_levels)@ == old(reject_levels)@ && final(level_weights)@
            == old(level_weights)@,
        res.is_ok() ==> final(rect_list)@ == grouped(
            old(rect_list)@,
            eps.eps_num as int,
            eps.eps_den as int,
            group_threshold as int,
        ) && same_pairs(
            final(reject_levels)@,
            final(level_weights)@,
            grouped_strongest(
                old(rect_list)@,
                eps.eps_num as int,
                eps.eps_den as int,
                group_threshold as int,
                old(reject_levels)@,
                old(level_weights)@,
            ),
        ),
{
    let n: usize = rect_list.len();
    if reject_levels.len() != n || level_weights.len() != n {
        return Err(DetectError::InvalidInput);
    }
    let ghost num = eps.eps_num as int;
    let ghost den = eps.eps_den as int;
    let ghost rects = rect_list@;
    let ghost levels0 = reject_levels@;
    let ghost weights0 = level_weights@;
    let (labels, tallies, leaders) = classify(rect_list, group_threshold, &eps);
    let out = collect_averages(rect_list, &labels, &tallies, &leaders, Ghost(num), Ghost(den));
    let best = strongest_of_classes(
        rect_list,
        &labels,
        reject_levels,
        level_weights,
        Ghost(num),
        Ghost(den),
    );
    let ghost want = grouped_strongest(rects, num, den, group_threshold as int, levels0, weights0);
    let mut out_levels: Vec<i32> = Vec::new();
    let mut out_weights: Vec<i64> = Vec::new();
    let mut k: usize = 0;
    while k < leaders.len()
        invariant
            k <= leaders@.len(),
            n == rects.len(),
            labels_classes(rects, num, den, as_ints(labels@)),
            best@.len() == n,
            forall|i: int|
                0 <= i < n ==> pair_view(#[trigger] best@[labels@[i] as int]) == class_strongest(
                    rects,
                    num,
                    den,
                    levels0,
                    weights0,
                    i,
                    n as int,
                ),
            forall|t: int| 0 <= t < leaders@.len() ==> (#[trigger] leaders@[t]) < n,
            as_ints(leaders@) == kept_leaders(rects, num, den, group_threshold as int),
            want == grouped_strongest(rects, num, den, group_threshold as int, levels0, weights0),
            out_levels@.len() == k,
            out_weights@.len() == k,
            forall|t: int|
                0 <= t < k ==> #[trigger] want[t] == Some((out_levels@[t] as int, out_weights@[t] as int)),
        decreases leaders@.len() - k,
    {
        let i: usize = leaders[k];
        assert(0 <= as_ints(labels@)[i as int] < n);
        assert(as_ints(leaders@)[k as int] == i);
        proof {
            assert(pair_view(best@[labels@[i as int] as int]) == class_strongest(
                rects,
                num,
                den,
                levels0,
                weights0,
                i as int,
                n as int,
            ));
            crate::partition::lemma_connected_reflexive(rects, num, den, i as int);
            lemma_class_strongest_some(rects, num, den, levels0, weights0, i as int, i as int, n as int);
        }
        match best[labels[i]] {
            Some(b) => {
                out_levels.push(b.0);
                out_weights.push(b.1);
            },
            None => {
                assert(false);
            },
        }
        k += 1;
    }
    *rect_list = out;
    *reject_levels = out_levels;
    *level_weights = out_weights;
    Ok(())
}

/// Groups the candidate rectangles of `rect_list` and reports a weight and a
/// level weight for each rectangle of the result.
///
/// Where `weights` and `level_weights` both come in non-empty, they hold a
/// level and a weight for each candidate, and the call is
/// `group_rectangles_weights_rejects`. Where one of them comes in empty, the
/// call is `group_rectangle_weights`, and each level weight of the result is
/// zero.
pub fn group_rectangle_levelweights(
    rect_list: &mut Vec<Rect>,
    group_threshold: i32,
    eps: SimilarRects,
    weights: &mut Vec<i32>,
    level_weights: &mut Vec<i64>,
) -> (res: Result<(), DetectError>)
    ensures
        res.is_ok() <==> if old(weights)@.len() > 0 && old(level_weights)@.len() > 0 {
            old(weights)@.len() == old(rect_list)@.len() && old(level_weights)@.len() == old(
                rect_list,
            )@.len()
        } else {
            old(rect_list)@.len() <= i32::MAX
        },
        res.is_err() ==> res == Err::<(), DetectError>(DetectError::InvalidInput) && final(rect_list)@
            == old(rect_list)@ && final(weights)@ == old(weights)@ && final(level_weights)@ == old(
            level_weights,
        )@,
        res.is_ok() ==> final(rect_list)@ == grouped(
            old(rect_list)@,
            eps.eps_num as int,
            eps.eps_den as int,
            group_threshold as int,
        ),
        res.is_ok() && old(weights)@.len() > 0 && old(level_weights)@.len() > 0 ==> same_pairs(
            final(weights)@,
            final(level_weights)@,
            grouped_strongest(
                old(rect_list)@,
                eps.eps_num as int,
                eps.eps_den as int,
                group_threshold as int,
                old(weights)@,
                old(level_weights)@,
            ),
        ),
        res.is_ok() && !(old(weights)@.len() > 0 && old(level_weights)@.len() > 0) ==> same_ints(
            final(weights)@,
            grouped_counts(
                old(rect_list)@,
                eps.eps_num as int,
                eps.eps_den as int,
                group_threshold as int,
            ),
        ) && final(level_weights)@.len() == final(weights)@.len() && forall|k: int|
            0 <= k < final(level_weights)@.len() ==> #[trigger] final(level_weights)@[k] == 0,
{
    if weights.len() > 0 && level_weights.len() > 0 {
        group_rectangles_weights_rejects(rect_list, weights, level_weights, group_threshold, eps)
    } else {
        let res = group_rectangle_weights(rect_list, weights, group_threshold, eps);
        if res.is_ok() {
            let mut zeros: Vec<i64> = Vec::new();
            let mut k: usize = 0;
            while k < weights.len()
                invariant
                    k <= weights@.len(),
                    zeros@.len() == k,
                    forall|t: int| 0 <= t < k ==> #[trigger] zeros@[t] == 0,
                decreases weights@.len() - k,
            {
                zeros.push(0);
                k += 1;
            }
            *level_weights = zeros;
        }
        res
    }
}

} // verus!
