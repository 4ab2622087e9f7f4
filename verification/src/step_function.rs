//! The step function container: an ordered sequence of segments with
//! first-match point evaluation.

use vstd::prelude::*;

use crate::interval::Interval;
use crate::segment::ValueOverInterval;
use crate::segment::wrapping_product;

verus! {

/// The value a segment sequence takes at point `p`: the value of the first
/// segment whose interval contains `p`, or `None` when no segment does.
pub open spec fn seq_value_at(segs: Seq<ValueOverInterval>, p: int) -> Option<i64>
    decreases segs.len(),
{
    if segs.len() <= 0 {
        Option::None
    } else if segs[0].interval.contains_pt(p) {
        Option::Some(segs[0].value)
    } else {
        seq_value_at(segs.drop_first(), p)
    }
}

/// No two segments of the sequence share a domain point.
pub open spec fn pairwise_disjoint(segs: Seq<ValueOverInterval>) -> bool {
    forall|a: int, b: int, p: int|
        #![trigger segs[a].interval.contains_pt(p), segs[b].interval.contains_pt(p)]
        0 <= a < b < segs.len() && segs[a].interval.contains_pt(p)
            ==> !segs[b].interval.contains_pt(p)
}

/// Evaluation of a concatenation: the left part wins wherever it is
/// defined, and the right part fills in the rest.
pub proof fn lemma_seq_value_at_concat(s1: Seq<ValueOverInterval>, s2: Seq<ValueOverInterval>)
    ensures
        forall|p: int| #[trigger] seq_value_at(s1 + s2, p) == (if seq_value_at(s1, p) is Some {
            seq_value_at(s1, p)
        } else {
            seq_value_at(s2, p)
        }),
    decreases s1.len(),
{
    if s1.len() == 0 {
        assert(s1 + s2 =~= s2);
    } else {
        lemma_seq_value_at_concat(s1.drop_first(), s2);
        assert((s1 + s2).drop_first() =~= s1.drop_first() + s2);
        assert forall|p: int| #[trigger] seq_value_at(s1 + s2, p) == (if seq_value_at(s1, p) is Some {
            seq_value_at(s1, p)
        } else {
            seq_value_at(s2, p)
        }) by {
            assert((s1 + s2)[0] == s1[0]);
            if !s1[0].interval.contains_pt(p) {
                assert(seq_value_at(s1 + s2, p) == seq_value_at(s1.drop_first() + s2, p));
            }
        }
    }
}

/// Evaluation after appending one segment: the existing sequence wins
/// wherever it is defined; the new segment covers what remains of its
/// interval.
pub proof fn lemma_seq_value_at_push(s: Seq<ValueOverInterval>, x: ValueOverInterval)
    ensures
        forall|p: int| #[trigger] seq_value_at(s.push(x), p) == (if seq_value_at(s, p) is Some {
            seq_value_at(s, p)
        } else if x.interval.contains_pt(p) {
            Option::Some(x.value)
        } else {
            Option::None::<i64>
        }),
{
    lemma_seq_value_at_concat(s, seq![x]);
    assert(s.push(x) =~= s + seq![x]);
    assert forall|p: int| #[trigger] seq_value_at(seq![x], p) == (if x.interval.contains_pt(p) {
        Option::Some(x.value)
    } else {
        Option::None::<i64>
    }) by {
        assert(seq![x].drop_first().len() == 0);
        assert(seq_value_at(seq![x].drop_first(), p) is None);
    }
}

/// A point no segment covers evaluates to `None`: gaps are ordinary,
/// representable states, not errors.
pub proof fn lemma_seq_value_at_none(segs: Seq<ValueOverInterval>, p: int)
    requires
        forall|k: int| 0 <= k < segs.len() ==> !(#[trigger] segs[k].interval.contains_pt(p)),
    ensures
        seq_value_at(segs, p) is None,
    decreases segs.len(),
{
    if segs.len() > 0 {
        assert(!segs[0].interval.contains_pt(p));
        assert forall|k: int| 0 <= k < segs.drop_first().len()
            implies !(#[trigger] segs.drop_first()[k].interval.contains_pt(p)) by {
            assert(segs.drop_first()[k] == segs[k + 1]);
        }
        lemma_seq_value_at_none(segs.drop_first(), p);
    }
}

/// The first segment covering `p` decides the value at `p`.
pub proof fn lemma_seq_value_at_first_hit(segs: Seq<ValueOverInterval>, p: int, k: int)
    requires
        0 <= k < segs.len(),
        segs[k].interval.contains_pt(p),
        forall|j: int| 0 <= j < k ==> !(#[trigger] segs[j].interval.contains_pt(p)),
    ensures
        seq_value_at(segs, p) == Option::Some(segs[k].value),
    decreases k,
{
    if k > 0 {
        assert(!segs[0].interval.contains_pt(p));
        assert(segs.drop_first()[k - 1] == segs[k]);
        assert forall|j: int| 0 <= j < k - 1
            implies !(#[trigger] segs.drop_first()[j].interval.contains_pt(p)) by {
            assert(segs.drop_first()[j] == segs[j + 1]);
        }
        lemma_seq_value_at_first_hit(segs.drop_first(), p, k - 1);
    }
}

/// A defined value comes from some covering segment.
pub proof fn lemma_seq_value_at_some_exists(segs: Seq<ValueOverInterval>, p: int)
    requires
        seq_value_at(segs, p) is Some,
    ensures
        exists|k: int|
            0 <= k < segs.len() && (#[trigger] segs[k].interval.contains_pt(p))
                && seq_value_at(segs, p) == Option::Some(segs[k].value),
    decreases segs.len(),
{
    if segs[0].interval.contains_pt(p) {
        assert(segs[0].interval.contains_pt(p) && seq_value_at(segs, p) == Option::Some(
            segs[0].value,
        ));
    } else {
        lemma_seq_value_at_some_exists(segs.drop_first(), p);
        let k0 = choose|k: int|
            0 <= k < segs.drop_first().len() && (#[trigger] segs.drop_first()[k].interval.contains_pt(p))
                && seq_value_at(segs.drop_first(), p) == Option::Some(segs.drop_first()[k].value);
        assert(segs[k0 + 1] == segs.drop_first()[k0]);
        assert(segs[k0 + 1].interval.contains_pt(p) && seq_value_at(segs, p) == Option::Some(
            segs[k0 + 1].value,
        ));
    }
}

/// A covered point evaluates to a defined value.
pub proof fn lemma_seq_value_at_defined(segs: Seq<ValueOverInterval>, p: int, k: int)
    requires
        0 <= k < segs.len(),
        segs[k].interval.contains_pt(p),
    ensures
        seq_value_at(segs, p) is Some,
    decreases segs.len(),
{
    if !segs[0].interval.contains_pt(p) {
        assert(segs.drop_first()[k - 1] == segs[k]);
        lemma_seq_value_at_defined(segs.drop_first(), p, k - 1);
    }
}

/// In a pairwise-disjoint sequence, any segment covering `p` decides the
/// value at `p`.
pub proof fn lemma_seq_value_at_disjoint_hit(segs: Seq<ValueOverInterval>, p: int, a: int)
    requires
        pairwise_disjoint(segs),
        0 <= a < segs.len(),
        segs[a].interval.contains_pt(p),
    ensures
        seq_value_at(segs, p) == Option::Some(segs[a].value),
{
    assert forall|j: int| 0 <= j < a implies !(#[trigger] segs[j].interval.contains_pt(p)) by {
        if segs[j].interval.contains_pt(p) {
            assert(!segs[a].interval.contains_pt(p));
        }
    }
    lemma_seq_value_at_first_hit(segs, p, a);
}

/// The segment sequence with every value multiplied by `k` and every
/// interval unchanged.
pub open spec fn scale_seq(s: Seq<ValueOverInterval>, k: i64) -> Seq<ValueOverInterval> {
    Seq::new(
        s.len(),
        |i: int| ValueOverInterval { interval: s[i].interval, value: wrapping_product(s[i].value, k) },
    )
}

/// Scaling is pointwise: wherever the function is defined the scaled
/// function takes the scaled value, and it is undefined nowhere else.
pub proof fn lemma_scale_seq_value_at(s: Seq<ValueOverInterval>, k: i64, p: int)
    ensures
        seq_value_at(scale_seq(s, k), p) == (match seq_value_at(s, p) {
            Option::Some(v) => Option::Some(wrapping_product(v, k)),
            Option::None => Option::None::<i64>,
        }),
    decreases s.len(),
{
    if s.len() == 0 {
    } else if s[0].interval.contains_pt(p) {
        assert(scale_seq(s, k)[0].interval.contains_pt(p));
    } else {
        assert(!scale_seq(s, k)[0].interval.contains_pt(p));
        lemma_scale_seq_value_at(s.drop_first(), k, p);
        assert(scale_seq(s, k).drop_first() =~= scale_seq(s.drop_first(), k));
    }
}

/// A piecewise-constant function over a small number of intervals, stored
/// as a flat ordered sequence of segments and evaluated by linear scan.
///
/// Construction through [`crate::SmallPiecewiseBuilder`] yields pairwise
/// disjoint segments; [`SmallPiecewise::from_sorted_disjoint`] trusts the
/// caller for the same property.  Total domain coverage is not required:
/// uncovered points evaluate to `None`.
#[derive(Debug, Clone)]
pub struct SmallPiecewise {
    /// the stored segments, conventionally ordered by increasing right bound
    pub values_over_intervals: Vec<ValueOverInterval>,
}

impl View for SmallPiecewise {
    type V = Seq<ValueOverInterval>;

    open spec fn view(&self) -> Seq<ValueOverInterval> {
        self.values_over_intervals@
    }
}

impl Default for SmallPiecewise {
    /// The step function with no segments, undefined everywhere.
    fn default() -> (r: SmallPiecewise)
        ensures
            r@.len() == 0,
    {
        SmallPiecewise { values_over_intervals: Vec::new() }
    }
}

impl SmallPiecewise {
    /// Private creation for crate operations; public construction goes
    /// through the builder or [`SmallPiecewise::from_sorted_disjoint`].
    pub(crate) fn new() -> (r: SmallPiecewise)
        ensures
            r@.len() == 0,
    {
        SmallPiecewise { values_over_intervals: Vec::new() }
    }

    /// Private append for segments the crate already knows to be in storage
    /// order and disjoint from the ones present.
    pub(crate) fn add(&mut self, element: ValueOverInterval)
        ensures
            final(self)@ == old(self)@.push(element),
    {
        self.values_over_intervals.push(element);
    }

    /// Build a step function directly from a caller-supplied segment list.
    ///
    /// The caller asserts that the segments are sorted by right bound and
    /// pairwise disjoint, bypassing the builder's overlay cost.  If the
    /// assertion is false the result is still safe to query, but which of
    /// several overlapping segments decides a point follows storage order
    /// rather than any overlay precedence.
    pub fn from_sorted_disjoint(segments: Vec<ValueOverInterval>) -> (r: SmallPiecewise)
        ensures
            r@ == segments@,
    {
        SmallPiecewise { values_over_intervals: segments }
    }

    /// The value of the function at `at`: the value of the first stored
    /// segment whose interval contains the point, or `None` when the point
    /// is uncovered.
    pub fn value_at(&self, at: i64) -> (r: Option<i64>)
        ensures
            r == seq_value_at(self@, at as int),
    {
        let n = self.values_over_intervals.len();
        let mut idx: usize = 0;
        while idx < n
            invariant
                n == self.values_over_intervals.len(),
                idx <= n,
                forall|k: int|
                    0 <= k < idx ==> !(#[trigger] self@[k].interval.contains_pt(at as int)),
            decreases n - idx,
        {
            let voi = self.values_over_intervals[idx];
            if voi.interval.contains_point(at) {
                proof {
                    lemma_seq_value_at_first_hit(self@, at as int, idx as int);
                }
                return Some(voi.value);
            }
            idx += 1;
        }
        proof {
            lemma_seq_value_at_none(self@, at as int);
        }
        None
    }

    /// A new step function with the same intervals and every value
    /// multiplied by `factor` (wrapping on overflow).
    pub fn scale(&self, factor: i64) -> (r: SmallPiecewise)
        ensures
            r@ == scale_seq(self@, factor),
    {
        let n = self.values_over_intervals.len();
        let mut out: Vec<ValueOverInterval> = Vec::new();
        let mut idx: usize = 0;
        while idx < n
            invariant
                n == self.values_over_intervals.len(),
                idx <= n,
                out@.len() == idx,
                forall|k: int| 0 <= k < idx ==> out@[k] == scale_seq(self@, factor)[k],
            decreases n - idx,
        {
            let seg = self.values_over_intervals[idx].scale(factor);
            out.push(seg);
            idx += 1;
        }
        proof {
            assert(out@ =~= scale_seq(self@, factor));
        }
        SmallPiecewise { values_over_intervals: out }
    }
}

} // verus!
