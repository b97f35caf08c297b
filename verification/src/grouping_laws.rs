//! What holds of grouping at the two ends of the tolerance scale.

use vstd::prelude::*;
use crate::geometry::{similar, Rect};
use crate::grouping::{
    average_of, averages_at, class_average, class_count, class_totals, emitted, grouped, is_leader,
    kept_leaders, lemma_class_count_positive, lemma_round_div_bounds, lemma_round_div_exact,
    ClassTotals,
};
use crate::grouping_order::lemma_emitted_members;
use crate::partition::{
    chain_between, connected, is_chain, lemma_connected_reflexive, lemma_connected_step,
};

verus! {

/// The rectangles of `rects` below `upto` that occur nowhere earlier in the
/// list, in their order.
pub open spec fn first_occurrences(rects: Seq<Rect>, upto: int) -> Seq<Rect>
    decreases upto,
{
    if upto <= 0 {
        Seq::empty()
    } else {
        let before = first_occurrences(rects, upto - 1);
        if exists|j: int| 0 <= j < upto - 1 && #[trigger] rects[j] == rects[upto - 1] {
            before
        } else {
            before.push(rects[upto - 1])
        }
    }
}

proof fn lemma_scaled_positive(den: int, d: int)
    requires
        den > 0,
        d >= 0,
    ensures
        2 * den * d <= 0 <==> d == 0,
{
    assert(d > 0 ==> 2 * den * d > 0) by (nonlinear_arith)
        requires
            den > 0,
    ;
}

/// Under a zero tolerance only equal rectangles are similar.
pub proof fn lemma_zero_tolerance_similar(den: int, r1: Rect, r2: Rect)
    requires
        den > 0,
    ensures
        similar(0, den, r1, r2) <==> r1 == r2,
{
    let dx = crate::geometry::spec_abs(r1.x - r2.x);
    let dy = crate::geometry::spec_abs(r1.y - r2.y);
    let dr = crate::geometry::spec_abs(r1.x + r1.width - r2.x - r2.width);
    let db = crate::geometry::spec_abs(r1.y + r1.height - r2.y - r2.height);
    lemma_scaled_positive(den, dx);
    lemma_scaled_positive(den, dy);
    lemma_scaled_positive(den, dr);
    lemma_scaled_positive(den, db);
    if similar(0, den, r1, r2) {
        assert(dx == 0 && dy == 0 && dr == 0 && db == 0);
    }
}

proof fn lemma_zero_tolerance_chain(rects: Seq<Rect>, den: int, p: Seq<int>, k: int)
    requires
        den > 0,
        is_chain(rects, 0, den, p),
        0 <= k < p.len(),
    ensures
        rects[p[0]] == rects[p[k]],
    decreases k,
{
    if k > 0 {
        lemma_zero_tolerance_chain(rects, den, p, k - 1);
        assert(similar(0, den, rects[p[k - 1]], rects[p[k - 1 + 1]]));
        lemma_zero_tolerance_similar(den, rects[p[k - 1]], rects[p[k]]);
    }
}

/// Under a zero tolerance two indices are connected exactly when they hold
/// equal rectangles.
pub proof fn lemma_zero_tolerance_connected(rects: Seq<Rect>, den: int, i: int, j: int)
    requires
        den > 0,
        0 <= i < rects.len(),
        0 <= j < rects.len(),
    ensures
        connected(rects, 0, den, i, j) <==> rects[i] == rects[j],
{
    if connected(rects, 0, den, i, j) {
        let p = choose|p: Seq<int>| #[trigger] chain_between(rects, 0, den, p, i, j);
        lemma_zero_tolerance_chain(rects, den, p, p.len() - 1);
    }
    if rects[i] == rects[j] {
        if i == j {
            lemma_connected_reflexive(rects, 0, den, i);
        } else {
            lemma_zero_tolerance_similar(den, rects[i], rects[j]);
            lemma_connected_step(rects, 0, den, i, j);
        }
    }
}

proof fn lemma_zero_tolerance_totals(rects: Seq<Rect>, den: int, i: int, upto: int)
    requires
        den > 0,
        0 <= i < rects.len(),
        0 <= upto <= rects.len(),
    ensures
        ({
            let t = class_totals(rects, 0, den, i, upto);
            &&& t.count >= 0
            &&& i < upto ==> t.count >= 1
            &&& t.x == rects[i].x * t.count
            &&& t.y == rects[i].y * t.count
            &&& t.width == rects[i].width * t.count
            &&& t.height == rects[i].height * t.count
        }),
    decreases upto,
{
    if upto > 0 {
        lemma_zero_tolerance_totals(rects, den, i, upto - 1);
        lemma_zero_tolerance_connected(rects, den, i, upto - 1);
        let t = class_totals(rects, 0, den, i, upto - 1);
        let r = rects[i];
        assert(r.x * (t.count + 1) == r.x * t.count + r.x) by (nonlinear_arith);
        assert(r.y * (t.count + 1) == r.y * t.count + r.y) by (nonlinear_arith);
        assert(r.width * (t.count + 1) == r.width * t.count + r.width) by (nonlinear_arith);
        assert(r.height * (t.count + 1) == r.height * t.count + r.height) by (nonlinear_arith);
    }
}

/// Under a zero tolerance the average of a class is the rectangle that all
/// its members equal.
pub proof fn lemma_zero_tolerance_average(rects: Seq<Rect>, den: int, i: int)
    requires
        den > 0,
        0 <= i < rects.len(),
    ensures
        class_average(rects, 0, den, i) == rects[i],
        class_count(rects, 0, den, i) >= 1,
{
    lemma_zero_tolerance_totals(rects, den, i, rects.len() as int);
    let t = class_totals(rects, 0, den, i, rects.len() as int);
    let r = rects[i];
    lemma_round_div_exact(r.x as int, t.count);
    lemma_round_div_exact(r.y as int, t.count);
    lemma_round_div_exact(r.width as int, t.count);
    lemma_round_div_exact(r.height as int, t.count);
}

proof fn lemma_zero_tolerance_prefix(rects: Seq<Rect>, den: int, upto: int)
    requires
        den > 0,
        0 <= upto <= rects.len(),
    ensures
        averages_at(rects, 0, den, emitted(rects, 0, den, 0, upto)) == first_occurrences(rects, upto),
    decreases upto,
{
    if upto > 0 {
        let i = upto - 1;
        lemma_zero_tolerance_prefix(rects, den, i);
        lemma_zero_tolerance_average(rects, den, i);
        let before = emitted(rects, 0, den, 0, i);
        assert forall|j: int| 0 <= j < i implies (connected(rects, 0, den, j, i) <==> #[trigger] rects[j]
            == rects[i]) by {
            lemma_zero_tolerance_connected(rects, den, j, i);
        }
        let repeated = exists|j: int| 0 <= j < i && #[trigger] rects[j] == rects[i];
        if repeated {
            let j = choose|j: int| 0 <= j < i && #[trigger] rects[j] == rects[i];
            assert(connected(rects, 0, den, j, i));
            assert(!is_leader(rects, 0, den, i));
        } else {
            assert(is_leader(rects, 0, den, i));
            assert(averages_at(rects, 0, den, before.push(i)) =~= averages_at(
                rects,
                0,
                den,
                before,
            ).push(rects[i]));
        }
    }
    assert(averages_at(rects, 0, den, emitted(rects, 0, den, 0, upto)) =~= first_occurrences(
        rects,
        upto,
    ));
}

proof fn lemma_first_occurrences_members(rects: Seq<Rect>, upto: int)
    requires
        0 <= upto <= rects.len(),
    ensures
        first_occurrences(rects, upto).no_duplicates(),
        forall|r: Rect|
            first_occurrences(rects, upto).contains(r) <==> exists|j: int|
                0 <= j < upto && #[trigger] rects[j] == r,
    decreases upto,
{
    if upto > 0 {
        let i = upto - 1;
        lemma_first_occurrences_members(rects, i);
        let before = first_occurrences(rects, i);
        let now = first_occurrences(rects, upto);
        let repeated = exists|j: int| 0 <= j < i && #[trigger] rects[j] == rects[i];
        assert forall|r: Rect| now.contains(r) <==> exists|j: int|
            0 <= j < upto && #[trigger] rects[j] == r by {
            if now.contains(r) {
                let k = choose|k: int| 0 <= k < now.len() && now[k] == r;
                if k < before.len() {
                    assert(before[k] == r);
                    assert(before.contains(r));
                    let j = choose|j: int| 0 <= j < i && #[trigger] rects[j] == r;
                    assert(0 <= j < upto && rects[j] == r);
                } else {
                    assert(rects[i] == r);
                }
            }
            if exists|j: int| 0 <= j < upto && #[trigger] rects[j] == r {
                let j = choose|j: int| 0 <= j < upto && #[trigger] rects[j] == r;
                if j < i || repeated {
                    let j2 = if j < i {
                        j
                    } else {
                        choose|j2: int| 0 <= j2 < i && #[trigger] rects[j2] == rects[i]
                    };
                    assert(0 <= j2 < i && rects[j2] == r);
                    assert(before.contains(r));
                    let k = choose|k: int| 0 <= k < before.len() && before[k] == r;
                    assert(now[k] == r);
                } else {
                    assert(now[now.len() - 1] == r);
                }
            }
        }
        if !repeated {
            assert(!before.contains(rects[i]));
            assert forall|a: int, b: int| 0 <= a < now.len() && 0 <= b < now.len() && a != b implies now[a]
                != now[b] by {
                if a < before.len() && b < before.len() {
                } else if a < before.len() {
                    assert(before.contains(before[a]));
                } else {
                    assert(before.contains(before[b]));
                }
            }
        }
    } else {
        assert forall|r: Rect| !first_occurrences(rects, upto).contains(r) by {}
    }
}

proof fn lemma_first_occurrences_of_distinct(rects: Seq<Rect>, upto: int)
    requires
        0 <= upto <= rects.len(),
        rects.no_duplicates(),
    ensures
        first_occurrences(rects, upto) == rects.take(upto),
    decreases upto,
{
    if upto > 0 {
        lemma_first_occurrences_of_distinct(rects, upto - 1);
        assert(rects.take(upto) =~= rects.take(upto - 1).push(rects[upto - 1]));
    } else {
        assert(rects.take(upto) =~= Seq::<Rect>::empty());
    }
}

/// With a zero tolerance and a zero threshold, grouping keeps each distinct
/// rectangle of the list once, in the order of first occurrence: nothing
/// occurs twice in the result, the result holds the same rectangles as the
/// list, and grouping the result again changes nothing.
pub proof fn lemma_zero_tolerance_keeps_distinct(rects: Seq<Rect>, den: int)
    requires
        den > 0,
    ensures
        grouped(rects, 0, den, 0) == first_occurrences(rects, rects.len() as int),
        grouped(rects, 0, den, 0).no_duplicates(),
        forall|r: Rect| grouped(rects, 0, den, 0).contains(r) <==> rects.contains(r),
        grouped(grouped(rects, 0, den, 0), 0, den, 0) == grouped(rects, 0, den, 0),
{
    let n = rects.len() as int;
    let out = grouped(rects, 0, den, 0);
    lemma_zero_tolerance_prefix(rects, den, n);
    lemma_first_occurrences_members(rects, n);
    assert forall|r: Rect| out.contains(r) <==> rects.contains(r) by {
        if rects.contains(r) {
            let j = choose|j: int| 0 <= j < rects.len() && rects[j] == r;
            assert(0 <= j < n && rects[j] == r);
        }
        if out.contains(r) {
            let j = choose|j: int| 0 <= j < n && #[trigger] rects[j] == r;
            assert(rects.contains(r));
        }
    }
    lemma_zero_tolerance_prefix(out, den, out.len() as int);
    lemma_first_occurrences_of_distinct(out, out.len() as int);
    assert(out.take(out.len() as int) =~= out);
}

/// The totals of the whole list below `upto`.
pub open spec fn list_totals(rects: Seq<Rect>, upto: int) -> ClassTotals
    decreases upto,
{
    if upto <= 0 {
        ClassTotals::zero()
    } else {
        list_totals(rects, upto - 1).plus(rects[upto - 1])
    }
}

proof fn lemma_one_class_totals(rects: Seq<Rect>, num: int, den: int, i: int, upto: int)
    requires
        0 <= i < rects.len(),
        0 <= upto <= rects.len(),
        forall|a: int, b: int|
            0 <= a < rects.len() && 0 <= b < rects.len() ==> connected(rects, num, den, a, b),
    ensures
        class_totals(rects, num, den, i, upto) == list_totals(rects, upto),
        list_totals(rects, upto).count == upto,
    decreases upto,
{
    if upto > 0 {
        lemma_one_class_totals(rects, num, den, i, upto - 1);
        assert(connected(rects, num, den, i, upto - 1));
    }
}

proof fn lemma_one_class_prefix(rects: Seq<Rect>, num: int, den: int, threshold: int, upto: int)
    requires
        1 <= upto <= rects.len(),
        forall|a: int, b: int|
            0 <= a < rects.len() && 0 <= b < rects.len() ==> connected(rects, num, den, a, b),
    ensures
        emitted(rects, num, den, threshold, upto) == if rects.len() > threshold {
            seq![0int]
        } else {
            Seq::<int>::empty()
        },
    decreases upto,
{
    lemma_one_class_totals(rects, num, den, upto - 1, rects.len() as int);
    if upto > 1 {
        lemma_one_class_prefix(rects, num, den, threshold, upto - 1);
        assert(connected(rects, num, den, 0, upto - 1));
        assert(!is_leader(rects, num, den, upto - 1));
    } else {
        assert(is_leader(rects, num, den, 0));
        assert(emitted(rects, num, den, threshold, 0) =~= Seq::<int>::empty());
        if rects.len() > threshold {
            assert(Seq::<int>::empty().push(0) =~= seq![0int]);
        }
    }
}

/// Where all rectangles of a non-empty list are in one class, each joined
/// to each by a chain of similar rectangles, grouping gives one rectangle,
/// the average of the whole list, if the list has more members than the
/// threshold, and nothing otherwise.
pub proof fn lemma_one_class_gives_one_average(rects: Seq<Rect>, num: int, den: int, threshold: int)
    requires
        rects.len() >= 1,
        forall|a: int, b: int|
            0 <= a < rects.len() && 0 <= b < rects.len() ==> connected(rects, num, den, a, b),
    ensures
        grouped(rects, num, den, threshold) == if rects.len() > threshold {
            seq![average_of(list_totals(rects, rects.len() as int))]
        } else {
            Seq::<Rect>::empty()
        },
{
    let n = rects.len() as int;
    lemma_one_class_prefix(rects, num, den, threshold, n);
    lemma_one_class_totals(rects, num, den, 0, n);
    if rects.len() > threshold {
        assert(grouped(rects, num, den, threshold) =~= seq![average_of(list_totals(rects, n))]);
    } else {
        assert(grouped(rects, num, den, threshold) =~= Seq::<Rect>::empty());
    }
}

/// Where every pair of rectangles of a non-empty list is similar, grouping
/// gives one rectangle, the average of the whole list, if the list has more
/// members than the threshold, and nothing otherwise.
pub proof fn lemma_all_similar_gives_one_average(rects: Seq<Rect>, num: int, den: int, threshold: int)
    requires
        rects.len() >= 1,
        forall|a: int, b: int|
            0 <= a < rects.len() && 0 <= b < rects.len() ==> similar(num, den, rects[a], rects[b]),
    ensures
        grouped(rects, num, den, threshold) == if rects.len() > threshold {
            seq![average_of(list_totals(rects, rects.len() as int))]
        } else {
            Seq::<Rect>::empty()
        },
{
    assert forall|a: int, b: int| 0 <= a < rects.len() && 0 <= b < rects.len() implies connected(
        rects,
        num,
        den,
        a,
        b,
    ) by {
        lemma_connected_step(rects, num, den, a, b);
    }
    lemma_one_class_gives_one_average(rects, num, den, threshold);
}

/// Each coordinate of `r` lies between that of `lo` and that of `hi`.
pub open spec fn within(r: Rect, lo: Rect, hi: Rect) -> bool {
    &&& lo.x <= r.x <= hi.x
    &&& lo.y <= r.y <= hi.y
    &&& lo.width <= r.width <= hi.width
    &&& lo.height <= r.height <= hi.height
}

proof fn lemma_class_totals_within(
    rects: Seq<Rect>,
    num: int,
    den: int,
    i: int,
    upto: int,
    lo: Rect,
    hi: Rect,
)
    requires
        0 <= upto <= rects.len(),
        forall|j: int| 0 <= j < rects.len() ==> within(#[trigger] rects[j], lo, hi),
    ensures
        ({
            let t = class_totals(rects, num, den, i, upto);
            &&& 0 <= t.count
            &&& lo.x * t.count <= t.x <= hi.x * t.count
            &&& lo.y * t.count <= t.y <= hi.y * t.count
            &&& lo.width * t.count <= t.width <= hi.width * t.count
            &&& lo.height * t.count <= t.height <= hi.height * t.count
        }),
    decreases upto,
{
    if upto > 0 {
        lemma_class_totals_within(rects, num, den, i, upto - 1, lo, hi);
        let c = class_totals(rects, num, den, i, upto - 1).count;
        assert(within(rects[upto - 1], lo, hi));
        assert(lo.x * (c + 1) == lo.x * c + lo.x && hi.x * (c + 1) == hi.x * c + hi.x) by (nonlinear_arith);
        assert(lo.y * (c + 1) == lo.y * c + lo.y && hi.y * (c + 1) == hi.y * c + hi.y) by (nonlinear_arith);
        assert(lo.width * (c + 1) == lo.width * c + lo.width && hi.width * (c + 1) == hi.width * c
            + hi.width) by (nonlinear_arith);
        assert(lo.height * (c + 1) == lo.height * c + lo.height && hi.height * (c + 1) == hi.height * c
            + hi.height) by (nonlinear_arith);
    }
}

/// Grouping takes no rectangle out of the range of its candidates: where
/// each coordinate of every candidate lies between bounds, so does each
/// coordinate of every rectangle of the result, whatever the threshold and
/// the tolerance. A rectangle that detection reports is therefore as near
/// to a place as all the windows are that went into it.
pub proof fn lemma_grouped_within(
    rects: Seq<Rect>,
    num: int,
    den: int,
    threshold: int,
    lo: Rect,
    hi: Rect,
    k: int,
)
    requires
        forall|j: int| 0 <= j < rects.len() ==> within(#[trigger] rects[j], lo, hi),
        0 <= k < grouped(rects, num, den, threshold).len(),
    ensures
        within(grouped(rects, num, den, threshold)[k], lo, hi),
{
    let n = rects.len() as int;
    lemma_emitted_members(rects, num, den, threshold, n);
    let l = kept_leaders(rects, num, den, threshold)[k];
    assert(0 <= l < n);
    lemma_connected_reflexive(rects, num, den, l);
    lemma_class_count_positive(rects, num, den, l, l, n);
    lemma_class_totals_within(rects, num, den, l, n, lo, hi);
    let t = class_totals(rects, num, den, l, n);
    lemma_round_div_bounds(t.x, t.count, lo.x as int, hi.x as int);
    lemma_round_div_bounds(t.y, t.count, lo.y as int, hi.y as int);
    lemma_round_div_bounds(t.width, t.count, lo.width as int, hi.width as int);
    lemma_round_div_bounds(t.height, t.count, lo.height as int, hi.height as int);
}

} // verus!
