//! Incremental construction of step functions with newest-segment-wins
//! overlay semantics.

use vstd::prelude::*;

use crate::interval::Interval;
use crate::segment::ValueOverInterval;
use crate::step_function::SmallPiecewise;
use crate::step_function::pairwise_disjoint;
use crate::step_function::seq_value_at;

verus! {

/// The overlay relation: `after` evaluates to the new segment's value on
/// the new segment's interval, and to `before`'s value everywhere else.
pub open spec fn overlay_rel(
    before: Seq<ValueOverInterval>,
    elem: ValueOverInterval,
    after: Seq<ValueOverInterval>,
) -> bool {
    forall|p: int| #[trigger] seq_value_at(after, p) == (if elem.interval.contains_pt(p) {
        Option::Some(elem.value)
    } else {
        seq_value_at(before, p)
    })
}

/// Some point of `c`'s prefix of length `k` covers `p`.
pub open spec fn covered_by_prefix(c: Seq<Interval>, k: int, p: int) -> bool {
    exists|j: int| 0 <= j < k && #[trigger] c[j].contains_pt(p)
}

/// Overlaying the same segment a second time does not change the function:
/// the overlay is idempotent.
pub proof fn lemma_overlay_idempotent(
    base: Seq<ValueOverInterval>,
    elem: ValueOverInterval,
    after_one: Seq<ValueOverInterval>,
    after_two: Seq<ValueOverInterval>,
    p: int,
)
    requires
        overlay_rel(base, elem, after_one),
        overlay_rel(after_one, elem, after_two),
    ensures
        seq_value_at(after_two, p) == seq_value_at(after_one, p),
{
}

/// The newest overlay wins: after overlaying segment `a` and then segment
/// `b`, every point covered by both intervals evaluates to `b`'s value.
pub proof fn lemma_overlay_newest_wins(
    base: Seq<ValueOverInterval>,
    a: ValueOverInterval,
    after_a: Seq<ValueOverInterval>,
    b: ValueOverInterval,
    after_b: Seq<ValueOverInterval>,
    p: int,
)
    requires
        overlay_rel(base, a, after_a),
        overlay_rel(after_a, b, after_b),
        a.interval.contains_pt(p),
        b.interval.contains_pt(p),
    ensures
        seq_value_at(after_b, p) == Option::Some(b.value),
{
}

/// A mutable staging area that accumulates segments into a well-formed
/// step function.  Each overlay trims existing coverage to the complement
/// of the new segment's interval before appending the new segment, so the
/// newest addition always wins.
pub struct SmallPiecewiseBuilder {
    /// the segments staged so far
    pub values_over_intervals: Vec<ValueOverInterval>,
}

impl View for SmallPiecewiseBuilder {
    type V = Seq<ValueOverInterval>;

    open spec fn view(&self) -> Seq<ValueOverInterval> {
        self.values_over_intervals@
    }
}

impl Default for SmallPiecewiseBuilder {
    /// An empty builder.
    fn default() -> (r: SmallPiecewiseBuilder)
        ensures
            r@.len() == 0,
    {
        SmallPiecewiseBuilder { values_over_intervals: Vec::new() }
    }
}

impl SmallPiecewiseBuilder {
    /// An empty builder.
    pub fn new() -> (r: SmallPiecewiseBuilder)
        ensures
            r@.len() == 0,
    {
        SmallPiecewiseBuilder { values_over_intervals: Vec::new() }
    }

    /// Consume the builder and produce the finished step function.  The
    /// segment list is transferred unchanged: each overlay already
    /// established disjointness incrementally.
    pub fn build(self) -> (r: SmallPiecewise)
        ensures
            r@ == self@,
    {
        SmallPiecewise { values_over_intervals: self.values_over_intervals }
    }

    /// Overlay a segment on top of the staged segments.
    ///
    /// Every staged segment is clipped to the complement of the new
    /// segment's interval (empty clippings are dropped) and the new segment
    /// is appended last, so wherever the new interval overlaps prior
    /// coverage the new value wins, and everywhere else the function is
    /// unchanged.  Overlaying a well-formed segment onto pairwise disjoint
    /// staged segments keeps them pairwise disjoint, so a builder fed only
    /// well-formed intervals stages a well-formed step function at every
    /// point of its life.
    #[verifier::loop_isolation(false)]
    pub fn add_overlay(self, element: ValueOverInterval) -> (r: SmallPiecewiseBuilder)
        ensures
            overlay_rel(self@, element, r@),
            pairwise_disjoint(self@) && element.interval.well_formed() ==> pairwise_disjoint(r@),
    {
        let n = self.values_over_intervals.len();
        let comp = element.interval.complement();
        let m = comp.len();
        let mut new_voi: Vec<ValueOverInterval> = Vec::new();
        let mut a: usize = 0;
        while a < n
            invariant
                a <= n,
                forall|p: int|
                    element.interval.contains_pt(p) ==> #[trigger] seq_value_at(new_voi@, p) is None,
                forall|p: int|
                    !element.interval.contains_pt(p) ==> #[trigger] seq_value_at(new_voi@, p)
                        == seq_value_at(self.values_over_intervals@.take(a as int), p),
                forall|q: int, p: int|
                    0 <= q < new_voi@.len() && #[trigger] new_voi@[q].interval.contains_pt(p)
                        ==> !element.interval.contains_pt(p),
                forall|q: int, p: int|
                    0 <= q < new_voi@.len() && #[trigger] new_voi@[q].interval.contains_pt(p)
                        ==> exists|a2: int|
                        0 <= a2 < a && #[trigger] self.values_over_intervals@[a2].interval.contains_pt(p),
                pairwise_disjoint(self.values_over_intervals@) && element.interval.well_formed()
                    ==> pairwise_disjoint(new_voi@),
            decreases n - a,
        {
            let seg = self.values_over_intervals[a];
            let mut k: usize = 0;
            while k < m
                invariant
                    k <= m,
                    a < n,
                    seg == self.values_over_intervals@[a as int],
                    forall|p: int|
                        element.interval.contains_pt(p) ==> #[trigger] seq_value_at(new_voi@, p) is None,
                    forall|p: int|
                        !element.interval.contains_pt(p) ==> #[trigger] seq_value_at(new_voi@, p) == (
                        if seq_value_at(self.values_over_intervals@.take(a as int), p) is Some {
                            seq_value_at(self.values_over_intervals@.take(a as int), p)
                        } else if seg.interval.contains_pt(p) && covered_by_prefix(comp@, k as int, p) {
                            Option::Some(seg.value)
                        } else {
                            Option::None::<i64>
                        }),
                forall|q: int, p: int|
                    0 <= q < new_voi@.len() && #[trigger] new_voi@[q].interval.contains_pt(p)
                        ==> !element.interval.contains_pt(p),
                forall|q: int, p: int|
                    0 <= q < new_voi@.len() && #[trigger] new_voi@[q].interval.contains_pt(p)
                        ==> (exists|a2: int|
                        0 <= a2 < a && #[trigger] self.values_over_intervals@[a2].interval.contains_pt(p))
                        || (seg.interval.contains_pt(p) && covered_by_prefix(comp@, k as int, p)),
                pairwise_disjoint(self.values_over_intervals@) && element.interval.well_formed()
                    ==> pairwise_disjoint(new_voi@),
                decreases m - k,
            {
                let inter = seg.interval.intersect(&comp[k]);
                if matches!(inter, Interval::Empty) {
                    proof {
                        assert forall|p: int|
                            !element.interval.contains_pt(p) implies #[trigger] seq_value_at(new_voi@, p) == (
                            if seq_value_at(self.values_over_intervals@.take(a as int), p) is Some {
                                seq_value_at(self.values_over_intervals@.take(a as int), p)
                            } else if seg.interval.contains_pt(p) && covered_by_prefix(comp@, k as int + 1, p) {
                                Option::Some(seg.value)
                            } else {
                                Option::None::<i64>
                            }) by {
                            if seg.interval.contains_pt(p) && comp@[k as int].contains_pt(p) {
                                assert(inter.contains_pt(p));
                            }
                        }
                        assert forall|q: int, p: int|
                            0 <= q < new_voi@.len() && #[trigger] new_voi@[q].interval.contains_pt(p)
                                implies (exists|a2: int|
                                0 <= a2 < a
                                    && #[trigger] self.values_over_intervals@[a2].interval.contains_pt(p))
                                || (seg.interval.contains_pt(p)
                                    && covered_by_prefix(comp@, k as int + 1, p)) by {
                            if seg.interval.contains_pt(p) && covered_by_prefix(comp@, k as int, p) {
                                let k2 = choose|j: int| 0 <= j < k as int && #[trigger] comp@[j].contains_pt(p);
                                assert(covered_by_prefix(comp@, k as int + 1, p));
                            }
                        }
                    }
                } else {
                    let ghost pre = new_voi@;
                    new_voi.push(ValueOverInterval { interval: inter, value: seg.value });
                    proof {
                        crate::step_function::lemma_seq_value_at_push(
                            pre,
                            ValueOverInterval { interval: inter, value: seg.value },
                        );
                        assert forall|p: int|
                            element.interval.contains_pt(p) implies #[trigger] seq_value_at(new_voi@, p) is None by {
                            assert(!inter.contains_pt(p));
                            assert(seq_value_at(pre, p) is None);
                        }
                        assert forall|p: int|
                            !element.interval.contains_pt(p) implies #[trigger] seq_value_at(new_voi@, p) == (
                            if seq_value_at(self.values_over_intervals@.take(a as int), p) is Some {
                                seq_value_at(self.values_over_intervals@.take(a as int), p)
                            } else if seg.interval.contains_pt(p) && covered_by_prefix(comp@, k as int + 1, p) {
                                Option::Some(seg.value)
                            } else {
                                Option::None::<i64>
                            }) by {
                            assert(seq_value_at(pre, p) == (
                            if seq_value_at(self.values_over_intervals@.take(a as int), p) is Some {
                                seq_value_at(self.values_over_intervals@.take(a as int), p)
                            } else if seg.interval.contains_pt(p) && covered_by_prefix(comp@, k as int, p) {
                                Option::Some(seg.value)
                            } else {
                                Option::None::<i64>
                            }));
                            if seg.interval.contains_pt(p) && covered_by_prefix(comp@, k as int + 1, p)
                                && !covered_by_prefix(comp@, k as int, p) {
                                assert(comp@[k as int].contains_pt(p));
                                assert(inter.contains_pt(p));
                            }
                        }
                        assert forall|q: int, p: int|
                            0 <= q < new_voi@.len() && #[trigger] new_voi@[q].interval.contains_pt(p)
                                implies !element.interval.contains_pt(p) by {
                            if q == pre.len() {
                                assert(comp@[k as int].contains_pt(p));
                            } else {
                                assert(pre[q].interval.contains_pt(p));
                            }
                        }
                        assert forall|q: int, p: int|
                            0 <= q < new_voi@.len() && #[trigger] new_voi@[q].interval.contains_pt(p)
                                implies (exists|a2: int|
                                0 <= a2 < a
                                    && #[trigger] self.values_over_intervals@[a2].interval.contains_pt(p))
                                || (seg.interval.contains_pt(p)
                                    && covered_by_prefix(comp@, k as int + 1, p)) by {
                            if q == pre.len() {
                                assert(seg.interval.contains_pt(p));
                                assert(comp@[k as int].contains_pt(p));
                                assert(covered_by_prefix(comp@, k as int + 1, p));
                            } else {
                                assert(pre[q].interval.contains_pt(p));
                                if seg.interval.contains_pt(p)
                                    && covered_by_prefix(comp@, k as int, p) {
                                    let k2 = choose|j: int|
                                        0 <= j < k as int && #[trigger] comp@[j].contains_pt(p);
                                    assert(covered_by_prefix(comp@, k as int + 1, p));
                                }
                            }
                        }
                        if pairwise_disjoint(self.values_over_intervals@)
                            && element.interval.well_formed() {
                            assert forall|q1: int, q2: int, p: int|
                                #![trigger new_voi@[q1].interval.contains_pt(p), new_voi@[q2].interval.contains_pt(p)]
                                0 <= q1 < q2 < new_voi@.len()
                                    && new_voi@[q1].interval.contains_pt(p)
                                    implies !new_voi@[q2].interval.contains_pt(p) by {
                                if new_voi@[q2].interval.contains_pt(p) {
                                    if q2 == pre.len() {
                                        assert(seg.interval.contains_pt(p));
                                        assert(comp@[k as int].contains_pt(p));
                                        assert(pre[q1].interval.contains_pt(p));
                                        if exists|a2: int|
                                            0 <= a2 < a
                                                && #[trigger] self.values_over_intervals@[a2].interval.contains_pt(p) {
                                            let a2 = choose|a2: int|
                                                0 <= a2 < a
                                                    && #[trigger] self.values_over_intervals@[a2].interval.contains_pt(p);
                                            assert(self.values_over_intervals@[a2].interval.contains_pt(p));
                                            assert(self.values_over_intervals@[a as int].interval.contains_pt(p));
                                            assert(false);
                                        } else {
                                            assert(covered_by_prefix(comp@, k as int, p));
                                            let k2 = choose|j: int|
                                                0 <= j < k as int && #[trigger] comp@[j].contains_pt(p);
                                            assert(k2 == 0 && k as int == 1);
                                            assert(comp@[0].contains_pt(p));
                                            assert(false);
                                        }
                                    } else {
                                        assert(pre[q1].interval.contains_pt(p));
                                        assert(!pre[q2].interval.contains_pt(p));
                                    }
                                }
                            }
                        }
                    }
                }
                k += 1;
            }
            proof {
                assert(self.values_over_intervals@.take(a as int + 1)
                    =~= self.values_over_intervals@.take(a as int).push(seg));
                crate::step_function::lemma_seq_value_at_push(
                    self.values_over_intervals@.take(a as int),
                    seg,
                );
                assert forall|p: int|
                    !element.interval.contains_pt(p) implies #[trigger] seq_value_at(new_voi@, p)
                        == seq_value_at(self.values_over_intervals@.take(a as int + 1), p) by {
                    assert(covered_by_prefix(comp@, m as int, p));
                }
                assert forall|q: int, p: int|
                    0 <= q < new_voi@.len() && #[trigger] new_voi@[q].interval.contains_pt(p)
                        implies exists|a2: int|
                        0 <= a2 < a + 1
                            && #[trigger] self.values_over_intervals@[a2].interval.contains_pt(p) by {
                    if seg.interval.contains_pt(p) {
                        assert(self.values_over_intervals@[a as int].interval.contains_pt(p));
                    }
                }
            }
            a += 1;
        }
        let ghost trimmed = new_voi@;
        new_voi.push(element);
        proof {
            assert(self.values_over_intervals@.take(n as int) =~= self.values_over_intervals@);
            crate::step_function::lemma_seq_value_at_push(trimmed, element);
            if pairwise_disjoint(self.values_over_intervals@) && element.interval.well_formed() {
                assert forall|q1: int, q2: int, p: int|
                    #![trigger new_voi@[q1].interval.contains_pt(p), new_voi@[q2].interval.contains_pt(p)]
                    0 <= q1 < q2 < new_voi@.len() && new_voi@[q1].interval.contains_pt(p)
                        implies !new_voi@[q2].interval.contains_pt(p) by {
                    assert(trimmed[q1].interval.contains_pt(p));
                    if q2 < trimmed.len() {
                        assert(!trimmed[q2].interval.contains_pt(p));
                    } else {
                        assert(!element.interval.contains_pt(p));
                    }
                }
            }
        }
        SmallPiecewiseBuilder { values_over_intervals: new_voi }
    }
}

} // verus!
