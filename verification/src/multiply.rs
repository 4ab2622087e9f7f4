//! Pointwise multiplication of two step functions by a single ordered merge
//! pass over their segment sequences.

use vstd::prelude::*;

use crate::interval::Interval;
use crate::interval::IntervalOrder;
use crate::interval::from_bounds_spec;
use crate::interval::lemma_bounds_room;
use crate::interval::lemma_contains_via_bounds;
use crate::interval::lemma_disjoint_ordered;
use crate::interval::lemma_intersect_pts;
use crate::interval::lemma_right_bound_le;
use crate::interval::lemma_right_compare_chain;
use crate::interval::lemma_right_compare_flip;
use crate::interval::sat_left;
use crate::interval::sat_right;
use crate::interval::tighter_left_spec;
use crate::interval::tighter_right_spec;
use crate::segment::ValueOverInterval;
use crate::segment::wrapping_product;
use crate::step_function::SmallPiecewise;
use crate::step_function::pairwise_disjoint;
use crate::step_function::seq_value_at;
use crate::step_function::lemma_seq_value_at_disjoint_hit;
use crate::step_function::lemma_seq_value_at_some_exists;

verus! {

/// The product segment of a left-hand and a right-hand segment: the
/// intersection of their intervals carrying the wrapped product of their
/// values — or nothing, when the intervals do not meet.
pub open spec fn emit_pair(x: ValueOverInterval, y: ValueOverInterval) -> Seq<ValueOverInterval> {
    let iv = x.interval.spec_intersect(y.interval);
    if iv is Empty {
        Seq::empty()
    } else {
        seq![ValueOverInterval { interval: iv, value: wrapping_product(x.value, y.value) }]
    }
}

/// The candidate emitted first at an aligned merge step, before the
/// mandatory aligned-overlap product: the right-induced candidate
/// (pending-left against the new right segment) when it exists and is
/// non-empty, otherwise the left-induced candidate (new left segment
/// against pending-right) when that exists.  At most one of the two is
/// ever emitted.
pub open spec fn both_first(
    nl: ValueOverInterval,
    nr: ValueOverInterval,
    pl: Option<ValueOverInterval>,
    pr: Option<ValueOverInterval>,
) -> Seq<ValueOverInterval> {
    match (pl, pr) {
        (Option::Some(x), Option::Some(y)) => if !(x.interval.spec_intersect(nr.interval) is Empty) {
            emit_pair(x, nr)
        } else {
            emit_pair(nl, y)
        },
        (Option::Some(x), Option::None) => emit_pair(x, nr),
        (Option::None, Option::Some(y)) => emit_pair(nl, y),
        (Option::None, Option::None) => Seq::empty(),
    }
}

/// The segments emitted by the merge from state `(i, j, pl, pr)` onward:
/// `i` and `j` index the next unvisited segment on each side, `pl` and `pr`
/// hold the most recently visited segment of each side.  The side whose
/// next right bound is smaller advances (ties advance both; comparisons
/// against an empty interval advance the left side), emitting the product
/// of the advancing segment with the opposite pending segment.
pub open spec fn merge_from(
    l: Seq<ValueOverInterval>,
    r: Seq<ValueOverInterval>,
    i: int,
    j: int,
    pl: Option<ValueOverInterval>,
    pr: Option<ValueOverInterval>,
) -> Seq<ValueOverInterval>
    decreases l.len() - i + r.len() - j,
        when 0 <= i <= l.len() && 0 <= j <= r.len()
{
    if i >= l.len() && j >= r.len() {
        Seq::empty()
    } else if j >= r.len() || (i < l.len() && (l[i].interval.spec_right_compare(r[j].interval) is Less
        || l[i].interval.spec_right_compare(r[j].interval) is Unordered)) {
        (match pr {
            Option::Some(y) => emit_pair(l[i], y),
            Option::None => Seq::empty(),
        }) + merge_from(l, r, i + 1, j, Option::Some(l[i]), pr)
    } else if i >= l.len() || l[i].interval.spec_right_compare(r[j].interval) is Greater {
        (match pl {
            Option::Some(x) => emit_pair(x, r[j]),
            Option::None => Seq::empty(),
        }) + merge_from(l, r, i, j + 1, pl, Option::Some(r[j]))
    } else {
        both_first(l[i], r[j], pl, pr) + emit_pair(l[i], r[j]) + merge_from(
            l,
            r,
            i + 1,
            j + 1,
            Option::Some(l[i]),
            Option::Some(r[j]),
        )
    }
}

/// The full merge of two segment sequences into their pointwise product.
pub open spec fn spec_multiply(
    l: Seq<ValueOverInterval>,
    r: Seq<ValueOverInterval>,
) -> Seq<ValueOverInterval> {
    merge_from(l, r, 0, 0, Option::None, Option::None)
}

/// The pointwise product of two optional values: defined only where both
/// are, as the wrapped product.
pub open spec fn pointwise_product(a: Option<i64>, b: Option<i64>) -> Option<i64> {
    match (a, b) {
        (Option::Some(x), Option::Some(y)) => Option::Some(wrapping_product(x, y)),
        _ => Option::None,
    }
}

/// `v` is the product segment of one segment of `l` and one segment of `r`.
pub open spec fn pair_shaped(
    l: Seq<ValueOverInterval>,
    r: Seq<ValueOverInterval>,
    v: ValueOverInterval,
) -> bool {
    exists|a: int, b: int|
        0 <= a < l.len() && 0 <= b < r.len() && v == (ValueOverInterval {
            interval: #[trigger] l[a].interval.spec_intersect(r[b].interval),
            value: wrapping_product(l[a].value, r[b].value),
        })
}

/// The pending segment `po` is a segment of `s` (or absent).
pub open spec fn pending_from(s: Seq<ValueOverInterval>, po: Option<ValueOverInterval>) -> bool {
    match po {
        Option::None => true,
        Option::Some(x) => exists|a: int| 0 <= a < s.len() && #[trigger] s[a] == x,
    }
}

proof fn lemma_pairs_concat(
    l: Seq<ValueOverInterval>,
    r: Seq<ValueOverInterval>,
    s1: Seq<ValueOverInterval>,
    s2: Seq<ValueOverInterval>,
)
    requires
        forall|k: int| 0 <= k < s1.len() ==> pair_shaped(l, r, #[trigger] s1[k]),
        forall|k: int| 0 <= k < s2.len() ==> pair_shaped(l, r, #[trigger] s2[k]),
    ensures
        forall|k: int| 0 <= k < (s1 + s2).len() ==> pair_shaped(l, r, #[trigger] (s1 + s2)[k]),
{
    assert forall|k: int| 0 <= k < (s1 + s2).len() implies pair_shaped(l, r, (s1 + s2)[k]) by {
        if k < s1.len() {
            assert((s1 + s2)[k] == s1[k]);
        } else {
            assert((s1 + s2)[k] == s2[k - s1.len()]);
        }
    }
}

proof fn lemma_pairs_emit(
    l: Seq<ValueOverInterval>,
    r: Seq<ValueOverInterval>,
    x: ValueOverInterval,
    y: ValueOverInterval,
    a: int,
    b: int,
)
    requires
        0 <= a < l.len(),
        0 <= b < r.len(),
        x == l[a],
        y == r[b],
    ensures
        forall|k: int| 0 <= k < emit_pair(x, y).len() ==> pair_shaped(l, r, #[trigger] emit_pair(x, y)[k]),
{
    let iv = x.interval.spec_intersect(y.interval);
    if !(iv is Empty) {
        assert(emit_pair(x, y)[0] == (ValueOverInterval {
            interval: l[a].interval.spec_intersect(r[b].interval),
            value: wrapping_product(l[a].value, r[b].value),
        }));
    }
}

/// Every segment the merge emits is the product segment of one left-hand
/// and one right-hand segment.
proof fn lemma_merge_from_pairs(
    l: Seq<ValueOverInterval>,
    r: Seq<ValueOverInterval>,
    i: int,
    j: int,
    pl: Option<ValueOverInterval>,
    pr: Option<ValueOverInterval>,
)
    requires
        0 <= i <= l.len(),
        0 <= j <= r.len(),
        pending_from(l, pl),
        pending_from(r, pr),
    ensures
        forall|k: int|
            0 <= k < merge_from(l, r, i, j, pl, pr).len() ==> pair_shaped(
                l,
                r,
                #[trigger] merge_from(l, r, i, j, pl, pr)[k],
            ),
    decreases l.len() - i + r.len() - j,
{
    if i >= l.len() && j >= r.len() {
    } else if j >= r.len() || (i < l.len() && (l[i].interval.spec_right_compare(r[j].interval) is Less
        || l[i].interval.spec_right_compare(r[j].interval) is Unordered)) {
        let emitted = match pr {
            Option::Some(y) => emit_pair(l[i], y),
            Option::None => Seq::<ValueOverInterval>::empty(),
        };
        if let Option::Some(y) = pr {
            let b = choose|b: int| 0 <= b < r.len() && #[trigger] r[b] == y;
            lemma_pairs_emit(l, r, l[i], y, i, b);
        }
        assert(pending_from(l, Option::Some(l[i])));
        lemma_merge_from_pairs(l, r, i + 1, j, Option::Some(l[i]), pr);
        lemma_pairs_concat(l, r, emitted, merge_from(l, r, i + 1, j, Option::Some(l[i]), pr));
        assert(merge_from(l, r, i, j, pl, pr) == emitted + merge_from(
            l,
            r,
            i + 1,
            j,
            Option::Some(l[i]),
            pr,
        ));
    } else if i >= l.len() || l[i].interval.spec_right_compare(r[j].interval) is Greater {
        let emitted = match pl {
            Option::Some(x) => emit_pair(x, r[j]),
            Option::None => Seq::<ValueOverInterval>::empty(),
        };
        if let Option::Some(x) = pl {
            let a = choose|a: int| 0 <= a < l.len() && #[trigger] l[a] == x;
            lemma_pairs_emit(l, r, x, r[j], a, j);
        }
        assert(pending_from(r, Option::Some(r[j])));
        lemma_merge_from_pairs(l, r, i, j + 1, pl, Option::Some(r[j]));
        lemma_pairs_concat(l, r, emitted, merge_from(l, r, i, j + 1, pl, Option::Some(r[j])));
        assert(merge_from(l, r, i, j, pl, pr) == emitted + merge_from(
            l,
            r,
            i,
            j + 1,
            pl,
            Option::Some(r[j]),
        ));
    } else {
        let first = both_first(l[i], r[j], pl, pr);
        assert forall|k: int| 0 <= k < first.len() implies pair_shaped(l, r, #[trigger] first[k]) by {
            match (pl, pr) {
                (Option::Some(x), Option::Some(y)) => {
                    if !(x.interval.spec_intersect(r[j].interval) is Empty) {
                        let a = choose|a: int| 0 <= a < l.len() && #[trigger] l[a] == x;
                        lemma_pairs_emit(l, r, x, r[j], a, j);
                    } else {
                        let b = choose|b: int| 0 <= b < r.len() && #[trigger] r[b] == y;
                        lemma_pairs_emit(l, r, l[i], y, i, b);
                    }
                },
                (Option::Some(x), Option::None) => {
                    let a = choose|a: int| 0 <= a < l.len() && #[trigger] l[a] == x;
                    lemma_pairs_emit(l, r, x, r[j], a, j);
                },
                (Option::None, Option::Some(y)) => {
                    let b = choose|b: int| 0 <= b < r.len() && #[trigger] r[b] == y;
                    lemma_pairs_emit(l, r, l[i], y, i, b);
                },
                (Option::None, Option::None) => {},
            }
        }
        lemma_pairs_emit(l, r, l[i], r[j], i, j);
        lemma_pairs_concat(l, r, first, emit_pair(l[i], r[j]));
        lemma_merge_from_pairs(l, r, i + 1, j + 1, Option::Some(l[i]), Option::Some(r[j]));
        lemma_pairs_concat(
            l,
            r,
            first + emit_pair(l[i], r[j]),
            merge_from(l, r, i + 1, j + 1, Option::Some(l[i]), Option::Some(r[j])),
        );
        assert(merge_from(l, r, i, j, pl, pr) == first + emit_pair(l[i], r[j]) + merge_from(
            l,
            r,
            i + 1,
            j + 1,
            Option::Some(l[i]),
            Option::Some(r[j]),
        ));
    }
}

/// Multiplication never invents coverage: wherever the product is defined,
/// both factors are defined there and the product's value is the wrapped
/// product of their values.  Equivalently, at any point where either
/// factor is absent the product is absent.
pub proof fn lemma_multiply_sound(lf: Seq<ValueOverInterval>, rf: Seq<ValueOverInterval>, p: int)
    requires
        pairwise_disjoint(lf),
        pairwise_disjoint(rf),
    ensures
        seq_value_at(spec_multiply(lf, rf), p) is Some ==> seq_value_at(spec_multiply(lf, rf), p)
            == pointwise_product(seq_value_at(lf, p), seq_value_at(rf, p)),
{
    let prod = spec_multiply(lf, rf);
    if seq_value_at(prod, p) is Some {
        lemma_seq_value_at_some_exists(prod, p);
        let k = choose|k: int|
            0 <= k < prod.len() && (#[trigger] prod[k].interval.contains_pt(p)) && seq_value_at(
                prod,
                p,
            ) == Option::Some(prod[k].value);
        lemma_merge_from_pairs(lf, rf, 0, 0, Option::None, Option::None);
        assert(pair_shaped(lf, rf, prod[k]));
        let (a, b) = choose|a: int, b: int|
            0 <= a < lf.len() && 0 <= b < rf.len() && prod[k] == (ValueOverInterval {
                interval: #[trigger] lf[a].interval.spec_intersect(rf[b].interval),
                value: wrapping_product(lf[a].value, rf[b].value),
            });
        lemma_intersect_pts(lf[a].interval, rf[b].interval);
        assert(lf[a].interval.contains_pt(p) && rf[b].interval.contains_pt(p));
        lemma_seq_value_at_disjoint_hit(lf, p, a);
        lemma_seq_value_at_disjoint_hit(rf, p, b);
    }
}

proof fn lemma_merge_right_exhausted(
    l: Seq<ValueOverInterval>,
    r: Seq<ValueOverInterval>,
    i: int,
    pl: Option<ValueOverInterval>,
)
    requires
        0 <= i <= l.len(),
    ensures
        merge_from(l, r, i, r.len() as int, pl, Option::None).len() == 0,
    decreases l.len() - i,
{
    if i < l.len() {
        lemma_merge_right_exhausted(l, r, i + 1, Option::Some(l[i]));
    }
}

proof fn lemma_merge_left_exhausted(
    l: Seq<ValueOverInterval>,
    r: Seq<ValueOverInterval>,
    j: int,
    pr: Option<ValueOverInterval>,
)
    requires
        0 <= j <= r.len(),
    ensures
        merge_from(l, r, l.len() as int, j, Option::None, pr).len() == 0,
    decreases r.len() - j,
{
    if j < r.len() {
        lemma_merge_left_exhausted(l, r, j + 1, Option::Some(r[j]));
    }
}

/// Multiplying by an empty step function, on either side, yields the step
/// function with no segments, which is absent at every point.
pub proof fn lemma_multiply_empty(lf: Seq<ValueOverInterval>, rf: Seq<ValueOverInterval>, p: int)
    requires
        lf.len() == 0 || rf.len() == 0,
    ensures
        spec_multiply(lf, rf).len() == 0,
        seq_value_at(spec_multiply(lf, rf), p) is None,
{
    if rf.len() == 0 {
        lemma_merge_right_exhausted(lf, rf, 0, Option::None);
    } else {
        lemma_merge_left_exhausted(lf, rf, 0, Option::None);
    }
}

/// The two intervals share at least one point.
pub open spec fn sets_meet(x: Interval, y: Interval) -> bool {
    exists|p: int| x.contains_pt(p) && #[trigger] y.contains_pt(p)
}

/// No segment carries the `Empty` interval.
pub open spec fn all_nonempty(s: Seq<ValueOverInterval>) -> bool {
    forall|k: int| 0 <= k < s.len() ==> !((#[trigger] s[k]).interval is Empty)
}

/// Every segment covers at least one point.
pub open spec fn all_inhabited(s: Seq<ValueOverInterval>) -> bool {
    forall|k: int| 0 <= k < s.len() ==> sets_meet((#[trigger] s[k]).interval, s[k].interval)
}

/// The segments appear in strictly increasing right-bound order: the
/// storage order the merge assumes.
pub open spec fn sorted_by_right(s: Seq<ValueOverInterval>) -> bool {
    forall|a: int, b: int|
        0 <= a < b < s.len() ==> (#[trigger] s[a].interval.spec_right_compare(
            s[b].interval,
        )) is Less
}

/// No segment of either side reaches past the next right bound of its own
/// side into the opposite side: whenever a segment of one side meets a
/// segment of the other that ends strictly later, the meeting segment's
/// successor (if any) ends no earlier than that opposite segment.  The
/// merge pairs each advancing segment only with the opposite side's most
/// recent segment, so this is what lets it see every overlapping pair.
pub open spec fn merge_adjacent(l: Seq<ValueOverInterval>, r: Seq<ValueOverInterval>) -> bool {
    (forall|a: int, b: int|
        0 <= a < l.len() && 0 <= b < r.len() && sets_meet(l[a].interval, r[b].interval) && (
        #[trigger] l[a].interval.spec_right_compare(r[b].interval)) is Less ==> a + 1 == l.len()
            || !(l[a + 1].interval.spec_right_compare(r[b].interval) is Less)) && (forall|
        a: int,
        b: int,
    |
        0 <= a < l.len() && 0 <= b < r.len() && sets_meet(l[a].interval, r[b].interval) && (
        #[trigger] l[a].interval.spec_right_compare(r[b].interval)) is Greater ==> b + 1 == r.len()
            || !(r[b + 1].interval.spec_right_compare(l[a].interval) is Less))
}

/// The most recently visited left-side segment when `i` segments have been
/// consumed.
pub open spec fn pending_left_of(l: Seq<ValueOverInterval>, i: int) -> Option<ValueOverInterval> {
    if i <= 0 {
        Option::None
    } else {
        Option::Some(l[i - 1])
    }
}

/// The most recently visited right-side segment when `j` segments have
/// been consumed.
pub open spec fn pending_right_of(r: Seq<ValueOverInterval>, j: int) -> Option<ValueOverInterval> {
    if j <= 0 {
        Option::None
    } else {
        Option::Some(r[j - 1])
    }
}

/// The product segment of `l[a]` and `r[b]`.
pub open spec fn pair_seg(
    l: Seq<ValueOverInterval>,
    r: Seq<ValueOverInterval>,
    a: int,
    b: int,
) -> ValueOverInterval {
    ValueOverInterval {
        interval: l[a].interval.spec_intersect(r[b].interval),
        value: wrapping_product(l[a].value, r[b].value),
    }
}

/// The sequence holds `v` somewhere.
pub open spec fn contains_seg(s: Seq<ValueOverInterval>, v: ValueOverInterval) -> bool {
    exists|k: int| 0 <= k < s.len() && (#[trigger] s[k]) == v
}

/// The meeting pair `(a, b)` has not been emitted before merge state
/// `(i, j)`: its emission step — the step consuming the later-ending of the
/// two segments — still lies ahead.
pub open spec fn pending_pair(
    l: Seq<ValueOverInterval>,
    r: Seq<ValueOverInterval>,
    i: int,
    j: int,
    a: int,
    b: int,
) -> bool {
    &&& 0 <= a < l.len()
    &&& 0 <= b < r.len()
    &&& sets_meet(l[a].interval, r[b].interval)
    &&& {
        let c = l[a].interval.spec_right_compare(r[b].interval);
        if c is Less {
            b >= j && (a >= i || a == i - 1)
        } else if c is Greater {
            a >= i && (b >= j || b == j - 1)
        } else {
            a >= i && b >= j
        }
    }
}

/// Every left-side segment consumed so far ends strictly before every
/// right-side segment not yet consumed.
pub open spec fn sync_left(l: Seq<ValueOverInterval>, r: Seq<ValueOverInterval>, i: int, j: int) -> bool {
    forall|a: int, b: int|
        0 <= a < i && j <= b < r.len() ==> (#[trigger] l[a].interval.spec_right_compare(
            r[b].interval,
        )) is Less
}

/// Every right-side segment consumed so far ends strictly before every
/// left-side segment not yet consumed.
pub open spec fn sync_right(l: Seq<ValueOverInterval>, r: Seq<ValueOverInterval>, i: int, j: int) -> bool {
    forall|a: int, b: int|
        i <= a < l.len() && 0 <= b < j ==> (#[trigger] r[b].interval.spec_right_compare(
            l[a].interval,
        )) is Less
}

proof fn lemma_contains_concat_l(s1: Seq<ValueOverInterval>, s2: Seq<ValueOverInterval>, v: ValueOverInterval)
    requires
        contains_seg(s1, v),
    ensures
        contains_seg(s1 + s2, v),
{
    let k = choose|k: int| 0 <= k < s1.len() && (#[trigger] s1[k]) == v;
    assert((s1 + s2)[k] == v);
}

proof fn lemma_contains_concat_r(s1: Seq<ValueOverInterval>, s2: Seq<ValueOverInterval>, v: ValueOverInterval)
    requires
        contains_seg(s2, v),
    ensures
        contains_seg(s1 + s2, v),
{
    let k = choose|k: int| 0 <= k < s2.len() && (#[trigger] s2[k]) == v;
    assert((s1 + s2)[s1.len() + k] == v);
}

/// A meeting pair's product segment is the one element of its emission.
proof fn lemma_emit_contains(l: Seq<ValueOverInterval>, r: Seq<ValueOverInterval>, a: int, b: int)
    requires
        0 <= a < l.len(),
        0 <= b < r.len(),
        sets_meet(l[a].interval, r[b].interval),
    ensures
        !(l[a].interval.spec_intersect(r[b].interval) is Empty),
        contains_seg(emit_pair(l[a], r[b]), pair_seg(l, r, a, b)),
{
    let p = choose|p: int| l[a].interval.contains_pt(p) && #[trigger] r[b].interval.contains_pt(p);
    lemma_intersect_pts(l[a].interval, r[b].interval);
    assert(l[a].interval.spec_intersect(r[b].interval).contains_pt(p));
    assert(emit_pair(l[a], r[b])[0] == pair_seg(l, r, a, b));
}

/// At an aligned merge step the tie-break can never lose an overlapping
/// pair: when the new left segment still meets the pending right segment,
/// the pending left segment has already separated from the new right
/// segment, so the right-induced candidate is empty and the left-induced
/// candidate goes through.  `w` witnesses a point of the pending left
/// segment, `q` a point shared by the new left and pending right segments.
proof fn lemma_tiebreak_right_induced_empty(
    lp: Interval,
    lc: Interval,
    rp: Interval,
    rc: Interval,
    w: int,
    q: int,
)
    requires
        forall|p: int| #[trigger] lp.contains_pt(p) ==> !lc.contains_pt(p),
        forall|p: int| #[trigger] rp.contains_pt(p) ==> !rc.contains_pt(p),
        lp.spec_right_compare(lc) is Less,
        rp.spec_right_compare(rc) is Less,
        lp.contains_pt(w),
        lc.contains_pt(q),
        rp.contains_pt(q),
    ensures
        lp.spec_intersect(rc) is Empty,
{
    if !(lp.spec_intersect(rc) is Empty) {
        lemma_contains_via_bounds(lp);
        lemma_contains_via_bounds(lc);
        lemma_contains_via_bounds(rp);
        lemma_contains_via_bounds(rc);
        let lb = tighter_left_spec(lp.left_bnd(), rc.left_bnd());
        let rb = tighter_right_spec(lp.right_bnd(), rc.right_bnd());
        assert(lp.spec_intersect(rc) == from_bounds_spec(lb, rb));
        if sat_right(lp.right_bnd(), q) {
            lemma_disjoint_ordered(lp, lc, w, q);
            assert(sat_left(lp.left_bnd(), q));
            assert(lp.contains_pt(q));
            assert(false);
        } else {
            lemma_right_bound_le(rp.right_bnd(), rc.right_bnd(), q);
            assert(!sat_right(rb, q));
            lemma_bounds_room(lb, rb, q);
            assert(sat_left(rc.left_bnd(), q));
            assert(rc.contains_pt(q));
            assert(false);
        }
    }
}

proof fn lemma_meet_nonempty_variant(x: Interval, y: Interval)
    requires
        sets_meet(x, y),
    ensures
        !(x is Empty),
        !(y is Empty),
{
    let p = choose|p: int| x.contains_pt(p) && #[trigger] y.contains_pt(p);
    assert(x.contains_pt(p));
}

/// One left-advancing merge step keeps coverage: every pair pending
/// before the step is either emitted by it or still pending after it.
#[verifier::rlimit(100)]
proof fn lemma_cover_step_left(
    l: Seq<ValueOverInterval>,
    r: Seq<ValueOverInterval>,
    i: int,
    j: int,
    em: Seq<ValueOverInterval>,
    rest: Seq<ValueOverInterval>,
)
    requires
        sorted_by_right(r),
        merge_adjacent(l, r),
        0 <= i < l.len(),
        0 <= j <= r.len(),
        j < r.len() ==> l[i].interval.spec_right_compare(r[j].interval) is Less,
        em == (match pending_right_of(r, j) {
            Option::Some(y) => emit_pair(l[i], y),
            Option::None => Seq::<ValueOverInterval>::empty(),
        }),
        forall|a: int, b: int|
            #[trigger] pending_pair(l, r, i + 1, j, a, b) ==> contains_seg(
                rest,
                pair_seg(l, r, a, b),
            ),
    ensures
        forall|a: int, b: int|
            #[trigger] pending_pair(l, r, i, j, a, b) ==> contains_seg(
                em + rest,
                pair_seg(l, r, a, b),
            ),
{
    assert forall|a: int, b: int| #[trigger] pending_pair(l, r, i, j, a, b) implies contains_seg(
        em + rest,
        pair_seg(l, r, a, b),
    ) by {
        let c = l[a].interval.spec_right_compare(r[b].interval);
        if c is Less {
            if a >= i {
                assert(pending_pair(l, r, i + 1, j, a, b));
                lemma_contains_concat_r(em, rest, pair_seg(l, r, a, b));
            } else {
                // a == i - 1: the merge would pass this pair by, which the
                // adjacency hypothesis rules out
                if b > j {
                    lemma_right_compare_chain(l[i].interval, r[j].interval, r[b].interval);
                }
                assert(l[a + 1].interval.spec_right_compare(r[b].interval) is Less);
                assert(false);
            }
        } else if c is Greater {
            if b == j - 1 && !(b >= j) {
                if a == i {
                    assert(pending_right_of(r, j) == Option::Some(r[j - 1]));
                    lemma_emit_contains(l, r, i, j - 1);
                    lemma_contains_concat_l(em, rest, pair_seg(l, r, a, b));
                } else {
                    assert(pending_pair(l, r, i + 1, j, a, b));
                    lemma_contains_concat_r(em, rest, pair_seg(l, r, a, b));
                }
            } else {
                if a == i {
                    if b > j {
                        lemma_right_compare_chain(l[i].interval, r[j].interval, r[b].interval);
                    }
                    assert(false);
                } else {
                    assert(pending_pair(l, r, i + 1, j, a, b));
                    lemma_contains_concat_r(em, rest, pair_seg(l, r, a, b));
                }
            }
        } else {
            if a == i {
                if b > j {
                    lemma_right_compare_chain(l[i].interval, r[j].interval, r[b].interval);
                }
                assert(false);
            } else {
                assert(pending_pair(l, r, i + 1, j, a, b));
                lemma_contains_concat_r(em, rest, pair_seg(l, r, a, b));
            }
        }
    }
}

/// A pair whose left segment ends first cannot still be pending once the
/// right side is about to advance past it, unless it is the pair the step
/// emits.
#[verifier::rlimit(100)]
proof fn lemma_cover_step_right_less(
    l: Seq<ValueOverInterval>,
    r: Seq<ValueOverInterval>,
    i: int,
    j: int,
    a: int,
    b: int,
)
    requires
        sorted_by_right(l),
        0 <= i <= l.len(),
        0 <= j < r.len(),
        i < l.len() ==> l[i].interval.spec_right_compare(r[j].interval) is Greater,
        pending_pair(l, r, i, j, a, b),
        l[a].interval.spec_right_compare(r[b].interval) is Less,
        b == j,
    ensures
        a == i - 1,
{
    if a >= i {
        if a > i {
            lemma_right_compare_flip(l[i].interval, r[j].interval);
            lemma_right_compare_chain(r[j].interval, l[i].interval, l[a].interval);
            lemma_right_compare_flip(l[a].interval, r[j].interval);
        }
        assert(false);
    }
}

/// A pending pair whose right segment ends first keeps its right segment
/// unvisited at a right-advancing step: its emission still lies ahead.
#[verifier::rlimit(100)]
proof fn lemma_cover_step_right_greater(
    l: Seq<ValueOverInterval>,
    r: Seq<ValueOverInterval>,
    i: int,
    j: int,
    a: int,
    b: int,
)
    requires
        sorted_by_right(l),
        0 <= i <= l.len(),
        0 <= j < r.len(),
        0 <= a < l.len(),
        j - 1 <= b < r.len(),
        i <= a,
        i < l.len() ==> l[i].interval.spec_right_compare(r[j].interval) is Greater,
        l[a].interval.spec_right_compare(r[b].interval) is Greater,
        b + 1 == r.len() || !(r[b + 1].interval.spec_right_compare(l[a].interval) is Less),
    ensures
        b >= j,
{
    if b < j {
        if a == i {
            lemma_right_compare_flip(l[i].interval, r[j].interval);
        } else {
            lemma_right_compare_flip(l[i].interval, r[j].interval);
            lemma_right_compare_chain(r[j].interval, l[i].interval, l[a].interval);
        }
        assert(r[b + 1].interval.spec_right_compare(l[a].interval) is Less);
        assert(false);
    }
}

/// A pending pair with aligned right bounds keeps its right segment past
/// the one a right-advancing step consumes.
#[verifier::rlimit(100)]
proof fn lemma_cover_step_right_equal(
    l: Seq<ValueOverInterval>,
    r: Seq<ValueOverInterval>,
    i: int,
    j: int,
    a: int,
    b: int,
)
    requires
        sorted_by_right(l),
        0 <= i <= l.len(),
        0 <= j < r.len(),
        i < l.len() ==> l[i].interval.spec_right_compare(r[j].interval) is Greater,
        pending_pair(l, r, i, j, a, b),
        l[a].interval.spec_right_compare(r[b].interval) is Equal,
    ensures
        b > j,
{
    if b == j {
        if a == i {
            assert(false);
        } else {
            lemma_right_compare_flip(l[i].interval, r[j].interval);
            lemma_right_compare_chain(r[j].interval, l[i].interval, l[a].interval);
            lemma_right_compare_flip(l[a].interval, r[j].interval);
            assert(false);
        }
    }
}

/// One right-advancing merge step keeps coverage, for one pending pair.
#[verifier::rlimit(100)]
proof fn lemma_cover_step_right_one(
    l: Seq<ValueOverInterval>,
    r: Seq<ValueOverInterval>,
    i: int,
    j: int,
    em: Seq<ValueOverInterval>,
    rest: Seq<ValueOverInterval>,
    a: int,
    b: int,
)
    requires
        sorted_by_right(l),
        merge_adjacent(l, r),
        0 <= i <= l.len(),
        0 <= j < r.len(),
        i < l.len() ==> l[i].interval.spec_right_compare(r[j].interval) is Greater,
        em == (match pending_left_of(l, i) {
            Option::Some(x) => emit_pair(x, r[j]),
            Option::None => Seq::<ValueOverInterval>::empty(),
        }),
        forall|a2: int, b2: int|
            #[trigger] pending_pair(l, r, i, j + 1, a2, b2) ==> contains_seg(
                rest,
                pair_seg(l, r, a2, b2),
            ),
        pending_pair(l, r, i, j, a, b),
    ensures
        contains_seg(em + rest, pair_seg(l, r, a, b)),
{
    let c = l[a].interval.spec_right_compare(r[b].interval);
    if c is Less {
        if b == j {
            lemma_cover_step_right_less(l, r, i, j, a, b);
            assert(pending_left_of(l, i) == Option::Some(l[i - 1]));
            lemma_emit_contains(l, r, i - 1, j);
            lemma_contains_concat_l(em, rest, pair_seg(l, r, a, b));
        } else {
            assert(pending_pair(l, r, i, j + 1, a, b));
            lemma_contains_concat_r(em, rest, pair_seg(l, r, a, b));
        }
    } else if c is Greater {
        assert(b + 1 == r.len() || !(r[b + 1].interval.spec_right_compare(l[a].interval) is Less));
        lemma_cover_step_right_greater(l, r, i, j, a, b);
        assert(pending_pair(l, r, i, j + 1, a, b));
        lemma_contains_concat_r(em, rest, pair_seg(l, r, a, b));
    } else {
        lemma_cover_step_right_equal(l, r, i, j, a, b);
        assert(pending_pair(l, r, i, j + 1, a, b));
        lemma_contains_concat_r(em, rest, pair_seg(l, r, a, b));
    }
}

/// One right-advancing merge step keeps coverage.
proof fn lemma_cover_step_right(
    l: Seq<ValueOverInterval>,
    r: Seq<ValueOverInterval>,
    i: int,
    j: int,
    em: Seq<ValueOverInterval>,
    rest: Seq<ValueOverInterval>,
)
    requires
        sorted_by_right(l),
        merge_adjacent(l, r),
        0 <= i <= l.len(),
        0 <= j < r.len(),
        i < l.len() ==> l[i].interval.spec_right_compare(r[j].interval) is Greater,
        em == (match pending_left_of(l, i) {
            Option::Some(x) => emit_pair(x, r[j]),
            Option::None => Seq::<ValueOverInterval>::empty(),
        }),
        forall|a: int, b: int|
            #[trigger] pending_pair(l, r, i, j + 1, a, b) ==> contains_seg(
                rest,
                pair_seg(l, r, a, b),
            ),
    ensures
        forall|a: int, b: int|
            #[trigger] pending_pair(l, r, i, j, a, b) ==> contains_seg(
                em + rest,
                pair_seg(l, r, a, b),
            ),
{
    assert forall|a: int, b: int| #[trigger] pending_pair(l, r, i, j, a, b) implies contains_seg(
        em + rest,
        pair_seg(l, r, a, b),
    ) by {
        lemma_cover_step_right_one(l, r, i, j, em, rest, a, b);
    }
}

/// Classification of a pending pair whose left segment ends first, at an
/// aligned step: it is the right-induced candidate, or it stays pending.
#[verifier::rlimit(100)]
proof fn lemma_both_classify_less(
    l: Seq<ValueOverInterval>,
    r: Seq<ValueOverInterval>,
    i: int,
    j: int,
    a: int,
    b: int,
)
    requires
        sorted_by_right(l),
        sorted_by_right(r),
        0 <= i < l.len(),
        0 <= j < r.len(),
        l[i].interval.spec_right_compare(r[j].interval) is Equal,
        pending_pair(l, r, i, j, a, b),
        l[a].interval.spec_right_compare(r[b].interval) is Less,
        a + 1 == l.len() || !(l[a + 1].interval.spec_right_compare(r[b].interval) is Less),
    ensures
        (a == i - 1 && b == j) || pending_pair(l, r, i + 1, j + 1, a, b),
{
    lemma_right_compare_flip(l[i].interval, r[j].interval);
    if a >= i {
        if a == i && b == j {
            assert(false);
        } else if b == j {
            lemma_right_compare_chain(r[j].interval, l[i].interval, l[a].interval);
            lemma_right_compare_flip(l[a].interval, r[j].interval);
            assert(false);
        } else {
            assert(pending_pair(l, r, i + 1, j + 1, a, b));
        }
    } else {
        if b != j {
            lemma_right_compare_chain(l[i].interval, r[j].interval, r[b].interval);
            assert(l[a + 1].interval.spec_right_compare(r[b].interval) is Less);
            assert(false);
        }
    }
}

/// Classification of a pending pair whose right segment ends first, at an
/// aligned step: it is the left-induced candidate, or it stays pending.
#[verifier::rlimit(100)]
proof fn lemma_both_classify_greater(
    l: Seq<ValueOverInterval>,
    r: Seq<ValueOverInterval>,
    i: int,
    j: int,
    a: int,
    b: int,
)
    requires
        sorted_by_right(l),
        sorted_by_right(r),
        0 <= i < l.len(),
        0 <= j < r.len(),
        l[i].interval.spec_right_compare(r[j].interval) is Equal,
        pending_pair(l, r, i, j, a, b),
        l[a].interval.spec_right_compare(r[b].interval) is Greater,
        b + 1 == r.len() || !(r[b + 1].interval.spec_right_compare(l[a].interval) is Less),
    ensures
        (a == i && b == j - 1) || pending_pair(l, r, i + 1, j + 1, a, b),
{
    lemma_right_compare_flip(l[i].interval, r[j].interval);
    if b >= j {
        if a == i && b == j {
            assert(false);
        } else if a == i {
            lemma_right_compare_chain(l[i].interval, r[j].interval, r[b].interval);
            assert(false);
        } else {
            assert(pending_pair(l, r, i + 1, j + 1, a, b));
        }
    } else {
        if a != i {
            lemma_right_compare_chain(r[j].interval, l[i].interval, l[a].interval);
            assert(r[b + 1].interval.spec_right_compare(l[a].interval) is Less);
            assert(false);
        }
    }
}

/// Classification of a pending pair with aligned right bounds, at an
/// aligned step: it is the aligned pair itself, or it stays pending.
#[verifier::rlimit(100)]
proof fn lemma_both_classify_equal(
    l: Seq<ValueOverInterval>,
    r: Seq<ValueOverInterval>,
    i: int,
    j: int,
    a: int,
    b: int,
)
    requires
        sorted_by_right(l),
        sorted_by_right(r),
        0 <= i < l.len(),
        0 <= j < r.len(),
        l[i].interval.spec_right_compare(r[j].interval) is Equal,
        pending_pair(l, r, i, j, a, b),
        l[a].interval.spec_right_compare(r[b].interval) is Equal,
    ensures
        (a == i && b == j) || pending_pair(l, r, i + 1, j + 1, a, b),
{
    lemma_right_compare_flip(l[i].interval, r[j].interval);
    if a == i && b > j {
        lemma_right_compare_chain(l[i].interval, r[j].interval, r[b].interval);
        assert(false);
    } else if a > i && b == j {
        lemma_right_compare_chain(r[j].interval, l[i].interval, l[a].interval);
        lemma_right_compare_flip(l[a].interval, r[j].interval);
        assert(false);
    } else if a > i && b > j {
        assert(pending_pair(l, r, i + 1, j + 1, a, b));
    }
}

/// One aligned merge step keeps coverage, for one pending pair: the
/// aligned pair is emitted, the induced candidate that meets is emitted,
/// and everything else remains pending.
#[verifier::rlimit(100)]
proof fn lemma_cover_step_both_one(
    l: Seq<ValueOverInterval>,
    r: Seq<ValueOverInterval>,
    i: int,
    j: int,
    first: Seq<ValueOverInterval>,
    rest: Seq<ValueOverInterval>,
    a: int,
    b: int,
)
    requires
        pairwise_disjoint(l),
        pairwise_disjoint(r),
        all_inhabited(l),
        sorted_by_right(l),
        sorted_by_right(r),
        merge_adjacent(l, r),
        0 <= i < l.len(),
        0 <= j < r.len(),
        l[i].interval.spec_right_compare(r[j].interval) is Equal,
        first == both_first(l[i], r[j], pending_left_of(l, i), pending_right_of(r, j)),
        forall|a2: int, b2: int|
            #[trigger] pending_pair(l, r, i + 1, j + 1, a2, b2) ==> contains_seg(
                rest,
                pair_seg(l, r, a2, b2),
            ),
        pending_pair(l, r, i, j, a, b),
    ensures
        contains_seg(first + emit_pair(l[i], r[j]) + rest, pair_seg(l, r, a, b)),
{
    let aligned = emit_pair(l[i], r[j]);
    let c = l[a].interval.spec_right_compare(r[b].interval);
    if c is Less {
        assert(a + 1 == l.len() || !(l[a + 1].interval.spec_right_compare(r[b].interval) is Less));
        lemma_both_classify_less(l, r, i, j, a, b);
        if a == i - 1 && b == j {
            // the right-induced candidate: it meets, so the tie-break
            // emits exactly it
            assert(pending_left_of(l, i) == Option::Some(l[i - 1]));
            lemma_emit_contains(l, r, i - 1, j);
            assert(first == emit_pair(l[i - 1], r[j]));
            lemma_contains_concat_l(first, aligned, pair_seg(l, r, a, b));
            lemma_contains_concat_l(first + aligned, rest, pair_seg(l, r, a, b));
        } else {
            lemma_contains_concat_r(first + aligned, rest, pair_seg(l, r, a, b));
        }
    } else if c is Greater {
        assert(b + 1 == r.len() || !(r[b + 1].interval.spec_right_compare(l[a].interval) is Less));
        lemma_both_classify_greater(l, r, i, j, a, b);
        if a == i && b == j - 1 {
            // the left-induced candidate: the tie-break cannot suppress
            // it, because the right-induced intersection is empty
            lemma_tiebreak_step(l, r, i, j);
            lemma_emit_contains(l, r, i, j - 1);
            assert(first == emit_pair(l[i], r[j - 1]));
            lemma_contains_concat_l(first, aligned, pair_seg(l, r, a, b));
            lemma_contains_concat_l(first + aligned, rest, pair_seg(l, r, a, b));
        } else {
            lemma_contains_concat_r(first + aligned, rest, pair_seg(l, r, a, b));
        }
    } else {
        lemma_both_classify_equal(l, r, i, j, a, b);
        if a == i && b == j {
            lemma_emit_contains(l, r, i, j);
            lemma_contains_concat_r(first, aligned, pair_seg(l, r, a, b));
            lemma_contains_concat_l(first + aligned, rest, pair_seg(l, r, a, b));
        } else {
            lemma_contains_concat_r(first + aligned, rest, pair_seg(l, r, a, b));
        }
    }
}

/// At an aligned merge step whose new left segment still meets the pending
/// right segment, the first emission is exactly that left-induced product:
/// the right-induced candidate, if any, has an empty intersection.
#[verifier::rlimit(100)]
proof fn lemma_tiebreak_step(l: Seq<ValueOverInterval>, r: Seq<ValueOverInterval>, i: int, j: int)
    requires
        pairwise_disjoint(l),
        pairwise_disjoint(r),
        all_inhabited(l),
        sorted_by_right(l),
        sorted_by_right(r),
        0 <= i < l.len(),
        0 < j < r.len(),
        sets_meet(l[i].interval, r[j - 1].interval),
    ensures
        both_first(l[i], r[j], pending_left_of(l, i), pending_right_of(r, j)) == emit_pair(
            l[i],
            r[j - 1],
        ),
{
    assert(pending_right_of(r, j) == Option::Some(r[j - 1]));
    if i > 0 {
        assert forall|p: int| #[trigger] l[i - 1].interval.contains_pt(p)
            implies !l[i].interval.contains_pt(p) by {
            if l[i - 1].interval.contains_pt(p) && l[i].interval.contains_pt(p) {
                assert(false);
            }
        }
        assert forall|p: int| #[trigger] r[j - 1].interval.contains_pt(p)
            implies !r[j].interval.contains_pt(p) by {
            if r[j - 1].interval.contains_pt(p) && r[j].interval.contains_pt(p) {
                assert(false);
            }
        }
        assert(sets_meet(l[i - 1].interval, l[i - 1].interval));
        let w = choose|p: int|
            l[i - 1].interval.contains_pt(p) && #[trigger] l[i - 1].interval.contains_pt(p);
        let q = choose|p: int|
            l[i].interval.contains_pt(p) && #[trigger] r[j - 1].interval.contains_pt(p);
        lemma_tiebreak_right_induced_empty(
            l[i - 1].interval,
            l[i].interval,
            r[j - 1].interval,
            r[j].interval,
            w,
            q,
        );
    }
}

/// One aligned merge step keeps coverage.
proof fn lemma_cover_step_both(
    l: Seq<ValueOverInterval>,
    r: Seq<ValueOverInterval>,
    i: int,
    j: int,
    first: Seq<ValueOverInterval>,
    rest: Seq<ValueOverInterval>,
)
    requires
        pairwise_disjoint(l),
        pairwise_disjoint(r),
        all_inhabited(l),
        sorted_by_right(l),
        sorted_by_right(r),
        merge_adjacent(l, r),
        0 <= i < l.len(),
        0 <= j < r.len(),
        l[i].interval.spec_right_compare(r[j].interval) is Equal,
        first == both_first(l[i], r[j], pending_left_of(l, i), pending_right_of(r, j)),
        forall|a: int, b: int|
            #[trigger] pending_pair(l, r, i + 1, j + 1, a, b) ==> contains_seg(
                rest,
                pair_seg(l, r, a, b),
            ),
    ensures
        forall|a: int, b: int|
            #[trigger] pending_pair(l, r, i, j, a, b) ==> contains_seg(
                first + emit_pair(l[i], r[j]) + rest,
                pair_seg(l, r, a, b),
            ),
{
    assert forall|a: int, b: int| #[trigger] pending_pair(l, r, i, j, a, b) implies contains_seg(
        first + emit_pair(l[i], r[j]) + rest,
        pair_seg(l, r, a, b),
    ) by {
        lemma_cover_step_both_one(l, r, i, j, first, rest, a, b);
    }
}

/// From any merge state that is in step with the visit order, every still
/// pending overlapping pair's product segment appears in the remaining
/// emission.
#[verifier::rlimit(100)]
proof fn lemma_merge_covers(l: Seq<ValueOverInterval>, r: Seq<ValueOverInterval>, i: int, j: int)
    requires
        pairwise_disjoint(l),
        pairwise_disjoint(r),
        all_inhabited(l),
        all_nonempty(r),
        sorted_by_right(l),
        sorted_by_right(r),
        merge_adjacent(l, r),
        0 <= i <= l.len(),
        0 <= j <= r.len(),
        sync_left(l, r, i, j),
        sync_right(l, r, i, j),
    ensures
        forall|a: int, b: int|
            #[trigger] pending_pair(l, r, i, j, a, b) ==> contains_seg(
                merge_from(l, r, i, j, pending_left_of(l, i), pending_right_of(r, j)),
                pair_seg(l, r, a, b),
            ),
    decreases l.len() - i + r.len() - j,
{
    let pl = pending_left_of(l, i);
    let pr = pending_right_of(r, j);
    let cur = merge_from(l, r, i, j, pl, pr);
    if i >= l.len() && j >= r.len() {
        assert forall|a: int, b: int| #[trigger] pending_pair(l, r, i, j, a, b) implies contains_seg(
            cur,
            pair_seg(l, r, a, b),
        ) by {
            assert(false);
        }
    } else if j >= r.len() || (i < l.len() && (l[i].interval.spec_right_compare(r[j].interval) is Less
        || l[i].interval.spec_right_compare(r[j].interval) is Unordered)) {
        // the left side advances
        assert(i < l.len());
        let nl = l[i];
        assert(sets_meet(nl.interval, nl.interval));
        lemma_meet_nonempty_variant(nl.interval, nl.interval);
        if j < r.len() {
            assert(!(nl.interval.spec_right_compare(r[j].interval) is Unordered));
            assert(nl.interval.spec_right_compare(r[j].interval) is Less);
        }
        assert forall|a: int, b: int| 0 <= a < i + 1 && j <= b < r.len() implies (
        #[trigger] l[a].interval.spec_right_compare(r[b].interval)) is Less by {
            if a == i && b > j {
                lemma_right_compare_chain(l[i].interval, r[j].interval, r[b].interval);
            }
        }
        lemma_merge_covers(l, r, i + 1, j);
        let em = match pr {
            Option::Some(y) => emit_pair(nl, y),
            Option::None => Seq::<ValueOverInterval>::empty(),
        };
        let rest = merge_from(l, r, i + 1, j, Option::Some(nl), pr);
        assert(pending_left_of(l, i + 1) == Option::Some(nl));
        assert(cur == em + rest);
        lemma_cover_step_left(l, r, i, j, em, rest);
    } else if i >= l.len() || l[i].interval.spec_right_compare(r[j].interval) is Greater {
        // the right side advances
        assert(j < r.len());
        let nr = r[j];
        if i < l.len() {
            lemma_right_compare_flip(l[i].interval, r[j].interval);
        }
        assert forall|a: int, b: int| i <= a < l.len() && 0 <= b < j + 1 implies (
        #[trigger] r[b].interval.spec_right_compare(l[a].interval)) is Less by {
            if b == j && a > i {
                lemma_right_compare_flip(l[i].interval, r[j].interval);
                lemma_right_compare_chain(r[j].interval, l[i].interval, l[a].interval);
            }
        }
        lemma_merge_covers(l, r, i, j + 1);
        let em = match pl {
            Option::Some(x) => emit_pair(x, nr),
            Option::None => Seq::<ValueOverInterval>::empty(),
        };
        let rest = merge_from(l, r, i, j + 1, pl, Option::Some(nr));
        assert(pending_right_of(r, j + 1) == Option::Some(nr));
        assert(cur == em + rest);
        lemma_cover_step_right(l, r, i, j, em, rest);
    } else {
        // both sides advance at an aligned right bound
        assert(i < l.len() && j < r.len());
        let nl = l[i];
        let nr = r[j];
        assert(nl.interval.spec_right_compare(nr.interval) is Equal);
        lemma_right_compare_flip(nl.interval, nr.interval);
        assert forall|a: int, b: int| 0 <= a < i + 1 && j + 1 <= b < r.len() implies (
        #[trigger] l[a].interval.spec_right_compare(r[b].interval)) is Less by {
            if a == i {
                lemma_right_compare_chain(l[i].interval, r[j].interval, r[b].interval);
            }
        }
        assert forall|a: int, b: int| i + 1 <= a < l.len() && 0 <= b < j + 1 implies (
        #[trigger] r[b].interval.spec_right_compare(l[a].interval)) is Less by {
            if b == j {
                lemma_right_compare_chain(r[j].interval, l[i].interval, l[a].interval);
            }
        }
        lemma_merge_covers(l, r, i + 1, j + 1);
        let first = both_first(nl, nr, pl, pr);
        let rest = merge_from(l, r, i + 1, j + 1, Option::Some(nl), Option::Some(nr));
        assert(pending_left_of(l, i + 1) == Option::Some(nl));
        assert(pending_right_of(r, j + 1) == Option::Some(nr));
        assert(cur == first + emit_pair(nl, nr) + rest);
        lemma_cover_step_both(l, r, i, j, first, rest);
    }
}

/// Pointwise multiplication is exact on well-formed inputs: at every point
/// the product takes the wrapped product of the two factors' values where
/// both are defined, and is absent where either is.
///
/// The inputs are assumed in the shape the merge expects: pairwise
/// disjoint segments in strictly increasing right-bound order, none
/// carrying the `Empty` interval (and every left-hand segment covering at
/// least one point), with neither function owning a segment that reaches
/// past the next right bound of its own side into the other
/// ([`merge_adjacent`]).
#[verifier::rlimit(100)]
pub proof fn lemma_multiply_pointwise(lf: Seq<ValueOverInterval>, rf: Seq<ValueOverInterval>, p: int)
    requires
        pairwise_disjoint(lf),
        pairwise_disjoint(rf),
        all_inhabited(lf),
        all_nonempty(rf),
        sorted_by_right(lf),
        sorted_by_right(rf),
        merge_adjacent(lf, rf),
    ensures
        seq_value_at(spec_multiply(lf, rf), p) == pointwise_product(
            seq_value_at(lf, p),
            seq_value_at(rf, p),
        ),
{
    let prod = spec_multiply(lf, rf);
    lemma_multiply_sound(lf, rf, p);
    if seq_value_at(lf, p) is Some && seq_value_at(rf, p) is Some {
        lemma_seq_value_at_some_exists(lf, p);
        lemma_seq_value_at_some_exists(rf, p);
        let a = choose|k: int|
            0 <= k < lf.len() && (#[trigger] lf[k].interval.contains_pt(p)) && seq_value_at(lf, p)
                == Option::Some(lf[k].value);
        let b = choose|k: int|
            0 <= k < rf.len() && (#[trigger] rf[k].interval.contains_pt(p)) && seq_value_at(rf, p)
                == Option::Some(rf[k].value);
        assert(sets_meet(lf[a].interval, rf[b].interval));
        assert(pending_pair(lf, rf, 0, 0, a, b));
        lemma_merge_covers(lf, rf, 0, 0);
        assert(contains_seg(prod, pair_seg(lf, rf, a, b)));
        let k = choose|k: int| 0 <= k < prod.len() && (#[trigger] prod[k]) == pair_seg(lf, rf, a, b);
        lemma_intersect_pts(lf[a].interval, rf[b].interval);
        assert(prod[k].interval.contains_pt(p));
        crate::step_function::lemma_seq_value_at_defined(prod, p, k);
    }
}

impl SmallPiecewise {
    /// Multiply two step functions pointwise across the domain.
    ///
    /// A single ordered merge pass visits the two segment sequences by
    /// increasing right bound, pairing each newly visited segment with the
    /// most recently visited segment of the opposite side; candidates with
    /// an empty intersection are discarded.  Wherever the result is
    /// defined it carries the wrapped product of the two factors' values
    /// ([`lemma_multiply_sound`]); on inputs in the storage order the merge
    /// assumes it is defined exactly where both factors are
    /// ([`lemma_multiply_pointwise`]).
    #[verifier::loop_isolation(false)]
    pub fn multiply(&self, rhs: &SmallPiecewise) -> (r: SmallPiecewise)
        ensures
            r@ == spec_multiply(self@, rhs@),
    {
        let ln = self.values_over_intervals.len();
        let rn = rhs.values_over_intervals.len();
        let mut out = SmallPiecewise::new();
        let mut i: usize = 0;
        let mut j: usize = 0;
        let mut pl: Option<ValueOverInterval> = None;
        let mut pr: Option<ValueOverInterval> = None;
        proof {
            assert(out@ + merge_from(self@, rhs@, 0, 0, pl, pr) =~= spec_multiply(self@, rhs@));
        }
        while i < ln || j < rn
            invariant
                i <= ln,
                j <= rn,
                out@ + merge_from(self@, rhs@, i as int, j as int, pl, pr) == spec_multiply(
                    self@,
                    rhs@,
                ),
            decreases ln - i + rn - j,
        {
            let ghost pre_out = out@;
            let ghost gi = i as int;
            let ghost gj = j as int;
            let ghost gpl = pl;
            let ghost gpr = pr;
            let take_left: bool;
            let take_both: bool;
            if j >= rn {
                take_left = true;
                take_both = false;
            } else if i >= ln {
                take_left = false;
                take_both = false;
            } else {
                let ord = self.values_over_intervals[i].interval.right_compare(
                    &rhs.values_over_intervals[j].interval,
                );
                match ord {
                    IntervalOrder::Less => {
                        take_left = true;
                        take_both = false;
                    },
                    IntervalOrder::Unordered => {
                        take_left = true;
                        take_both = false;
                    },
                    IntervalOrder::Greater => {
                        take_left = false;
                        take_both = false;
                    },
                    IntervalOrder::Equal => {
                        take_left = false;
                        take_both = true;
                    },
                }
            }
            if take_both {
                let nl = self.values_over_intervals[i];
                let nr = rhs.values_over_intervals[j];
                let mut emitted_first = false;
                if let Some(x) = pl {
                    let iv = x.interval.intersect(&nr.interval);
                    if !matches!(iv, Interval::Empty) {
                        out.add(
                            ValueOverInterval {
                                interval: iv,
                                value: x.value.wrapping_mul(nr.value),
                            },
                        );
                        emitted_first = true;
                    }
                }
                if !emitted_first {
                    if let Some(y) = pr {
                        let iv = nl.interval.intersect(&y.interval);
                        if !matches!(iv, Interval::Empty) {
                            out.add(
                                ValueOverInterval {
                                    interval: iv,
                                    value: nl.value.wrapping_mul(y.value),
                                },
                            );
                        }
                    }
                }
                let iv = nl.interval.intersect(&nr.interval);
                if !matches!(iv, Interval::Empty) {
                    out.add(
                        ValueOverInterval { interval: iv, value: nl.value.wrapping_mul(nr.value) },
                    );
                }
                pl = Some(nl);
                pr = Some(nr);
                i += 1;
                j += 1;
                proof {
                    assert(out@ =~= pre_out + both_first(nl, nr, gpl, gpr) + emit_pair(nl, nr));
                    assert(merge_from(self@, rhs@, gi, gj, gpl, gpr) == both_first(nl, nr, gpl, gpr)
                        + emit_pair(nl, nr) + merge_from(
                        self@,
                        rhs@,
                        gi + 1,
                        gj + 1,
                        Option::Some(nl),
                        Option::Some(nr),
                    ));
                    assert(out@ + merge_from(self@, rhs@, i as int, j as int, pl, pr)
                        =~= spec_multiply(self@, rhs@));
                }
            } else if take_left {
                let nl = self.values_over_intervals[i];
                if let Some(y) = pr {
                    let iv = nl.interval.intersect(&y.interval);
                    if !matches!(iv, Interval::Empty) {
                        out.add(
                            ValueOverInterval {
                                interval: iv,
                                value: nl.value.wrapping_mul(y.value),
                            },
                        );
                    }
                }
                pl = Some(nl);
                i += 1;
                proof {
                    let emitted = match gpr {
                        Option::Some(y) => emit_pair(nl, y),
                        Option::None => Seq::<ValueOverInterval>::empty(),
                    };
                    assert(out@ =~= pre_out + emitted);
                    assert(merge_from(self@, rhs@, gi, gj, gpl, gpr) == emitted + merge_from(
                        self@,
                        rhs@,
                        gi + 1,
                        gj,
                        Option::Some(nl),
                        gpr,
                    ));
                    assert(out@ + merge_from(self@, rhs@, i as int, j as int, pl, pr)
                        =~= spec_multiply(self@, rhs@));
                }
            } else {
                let nr = rhs.values_over_intervals[j];
                if let Some(x) = pl {
                    let iv = x.interval.intersect(&nr.interval);
                    if !matches!(iv, Interval::Empty) {
                        out.add(
                            ValueOverInterval {
                                interval: iv,
                                value: x.value.wrapping_mul(nr.value),
                            },
                        );
                    }
                }
                pr = Some(nr);
                j += 1;
                proof {
                    let emitted = match gpl {
                        Option::Some(x) => emit_pair(x, nr),
                        Option::None => Seq::<ValueOverInterval>::empty(),
                    };
                    assert(out@ =~= pre_out + emitted);
                    assert(merge_from(self@, rhs@, gi, gj, gpl, gpr) == emitted + merge_from(
                        self@,
                        rhs@,
                        gi,
                        gj + 1,
                        gpl,
                        Option::Some(nr),
                    ));
                    assert(out@ + merge_from(self@, rhs@, i as int, j as int, pl, pr)
                        =~= spec_multiply(self@, rhs@));
                }
            }
        }
        proof {
            assert(out@ + merge_from(self@, rhs@, i as int, j as int, pl, pr) =~= out@);
        }
        out
    }
}

} // verus!
