//! The interval algebra: containment, intersection, complement and a
//! right-bound ordering over general intervals of `i64` domain points.

use vstd::prelude::*;

verus! {

/// A general interval over `i64` domain points.
///
/// The taxonomy follows the classical real-interval classification: closed,
/// open and half-open bounded intervals, the four one-sided unbounded forms,
/// singletons, the full line and the empty interval.
///
/// The meaning of an interval is the set of points it contains, given by
/// [`Interval::contains_pt`].  Bounded variants with `left >= right` are not
/// rejected; they simply denote a set with no points.  The convention for
/// meaningful bounded variants is `left < right`, with `Singleton` covering
/// the one-point case.
#[derive(Debug, Copy, Clone, PartialEq, Eq, Structural)]
pub enum Interval {
    /// `[left, right]`
    Closed { left: i64, right: i64 },
    /// `(left, right)`
    Open { left: i64, right: i64 },
    /// `(left, right]`
    LeftHalfOpen { left: i64, right: i64 },
    /// `[left, right)`
    RightHalfOpen { left: i64, right: i64 },
    /// `(-inf, right]`
    UnboundedClosedRight { right: i64 },
    /// `(-inf, right)`
    UnboundedOpenRight { right: i64 },
    /// `[left, +inf)`
    UnboundedClosedLeft { left: i64 },
    /// `(left, +inf)`
    UnboundedOpenLeft { left: i64 },
    /// the single point `at`
    Singleton { at: i64 },
    /// `(-inf, +inf)`
    Unbounded,
    /// the interval with no points
    Empty,
}

/// One end of a non-empty interval: unbounded, or a closed or open finite
/// bound.  Whether `Unbound` means `-inf` or `+inf` depends on which side the
/// bound describes.
#[derive(Debug, Copy, Clone, PartialEq, Eq, Structural)]
pub enum IntervalBound {
    /// no finite bound on this side
    Unbound,
    /// the bound `v`, included
    ClosedAt { v: i64 },
    /// the bound `v`, excluded
    OpenAt { v: i64 },
}

/// Whether point `p` satisfies the left-end constraint `b`.
pub open spec fn sat_left(b: IntervalBound, p: int) -> bool {
    match b {
        IntervalBound::Unbound => true,
        IntervalBound::ClosedAt { v } => v <= p,
        IntervalBound::OpenAt { v } => v < p,
    }
}

/// Whether point `p` satisfies the right-end constraint `b`.
pub open spec fn sat_right(b: IntervalBound, p: int) -> bool {
    match b {
        IntervalBound::Unbound => true,
        IntervalBound::ClosedAt { v } => p <= v,
        IntervalBound::OpenAt { v } => p < v,
    }
}

/// The tighter of two left-end constraints: the one satisfied by a point
/// exactly when both are.  At equal bound values an open bound beats a
/// closed one.
pub open spec fn tighter_left_spec(a: IntervalBound, b: IntervalBound) -> IntervalBound {
    match (a, b) {
        (IntervalBound::Unbound, _) => b,
        (_, IntervalBound::Unbound) => a,
        (IntervalBound::ClosedAt { v: x }, IntervalBound::ClosedAt { v: y }) => if x >= y { a } else { b },
        (IntervalBound::ClosedAt { v: x }, IntervalBound::OpenAt { v: y }) => if x > y { a } else { b },
        (IntervalBound::OpenAt { v: x }, IntervalBound::ClosedAt { v: y }) => if x >= y { a } else { b },
        (IntervalBound::OpenAt { v: x }, IntervalBound::OpenAt { v: y }) => if x >= y { a } else { b },
    }
}

/// The tighter of two right-end constraints, symmetric to
/// [`tighter_left_spec`].
pub open spec fn tighter_right_spec(a: IntervalBound, b: IntervalBound) -> IntervalBound {
    match (a, b) {
        (IntervalBound::Unbound, _) => b,
        (_, IntervalBound::Unbound) => a,
        (IntervalBound::ClosedAt { v: x }, IntervalBound::ClosedAt { v: y }) => if x <= y { a } else { b },
        (IntervalBound::ClosedAt { v: x }, IntervalBound::OpenAt { v: y }) => if x < y { a } else { b },
        (IntervalBound::OpenAt { v: x }, IntervalBound::ClosedAt { v: y }) => if x <= y { a } else { b },
        (IntervalBound::OpenAt { v: x }, IntervalBound::OpenAt { v: y }) => if x <= y { a } else { b },
    }
}

/// The interval whose points are exactly those satisfying both end
/// constraints, in normal form: an empty combination yields `Empty`, a
/// one-point closed combination yields `Singleton`.
pub open spec fn from_bounds_spec(lb: IntervalBound, rb: IntervalBound) -> Interval {
    match (lb, rb) {
        (IntervalBound::Unbound, IntervalBound::Unbound) => Interval::Unbounded,
        (IntervalBound::Unbound, IntervalBound::ClosedAt { v: r }) => Interval::UnboundedClosedRight { right: r },
        (IntervalBound::Unbound, IntervalBound::OpenAt { v: r }) => Interval::UnboundedOpenRight { right: r },
        (IntervalBound::ClosedAt { v: l }, IntervalBound::Unbound) => Interval::UnboundedClosedLeft { left: l },
        (IntervalBound::OpenAt { v: l }, IntervalBound::Unbound) => Interval::UnboundedOpenLeft { left: l },
        (IntervalBound::ClosedAt { v: l }, IntervalBound::ClosedAt { v: r }) => if l > r {
            Interval::Empty
        } else if l == r {
            Interval::Singleton { at: l }
        } else {
            Interval::Closed { left: l, right: r }
        },
        (IntervalBound::ClosedAt { v: l }, IntervalBound::OpenAt { v: r }) => if l >= r {
            Interval::Empty
        } else {
            Interval::RightHalfOpen { left: l, right: r }
        },
        (IntervalBound::OpenAt { v: l }, IntervalBound::ClosedAt { v: r }) => if l >= r {
            Interval::Empty
        } else {
            Interval::LeftHalfOpen { left: l, right: r }
        },
        (IntervalBound::OpenAt { v: l }, IntervalBound::OpenAt { v: r }) => if l >= r {
            Interval::Empty
        } else {
            Interval::Open { left: l, right: r }
        },
    }
}

/// The three-way outcome of comparing two interval right bounds, with
/// `Unordered` for comparisons involving the empty interval.
#[derive(Debug, Copy, Clone, PartialEq, Eq, Structural)]
pub enum IntervalOrder {
    /// strictly smaller
    Less,
    /// the same bound
    Equal,
    /// strictly greater
    Greater,
    /// no order is defined
    Unordered,
}

/// Order on right-end constraints: by bound value, and at equal values an
/// open bound lies below the closed one; an unbounded right end lies above
/// every finite bound.
pub open spec fn right_bound_cmp(a: IntervalBound, b: IntervalBound) -> IntervalOrder {
    match (a, b) {
        (IntervalBound::Unbound, IntervalBound::Unbound) => IntervalOrder::Equal,
        (IntervalBound::Unbound, _) => IntervalOrder::Greater,
        (_, IntervalBound::Unbound) => IntervalOrder::Less,
        (IntervalBound::ClosedAt { v: x }, IntervalBound::ClosedAt { v: y }) => if x < y {
            IntervalOrder::Less
        } else if x > y {
            IntervalOrder::Greater
        } else {
            IntervalOrder::Equal
        },
        (IntervalBound::ClosedAt { v: x }, IntervalBound::OpenAt { v: y }) => if x < y {
            IntervalOrder::Less
        } else {
            IntervalOrder::Greater
        },
        (IntervalBound::OpenAt { v: x }, IntervalBound::ClosedAt { v: y }) => if x <= y {
            IntervalOrder::Less
        } else {
            IntervalOrder::Greater
        },
        (IntervalBound::OpenAt { v: x }, IntervalBound::OpenAt { v: y }) => if x < y {
            IntervalOrder::Less
        } else if x > y {
            IntervalOrder::Greater
        } else {
            IntervalOrder::Equal
        },
    }
}

impl Interval {
    /// The bounded variants' ends are ordered: equal ends are meaningful
    /// only where both are closed.  A well-formed interval's complement
    /// pieces are disjoint; an ill-formed bounded variant still denotes a
    /// set (with no points), but its complement pieces may overlap.
    pub open spec fn well_formed(self) -> bool {
        match self {
            Interval::Closed { left, right } => left <= right,
            Interval::Open { left, right } => left < right,
            Interval::LeftHalfOpen { left, right } => left <= right,
            Interval::RightHalfOpen { left, right } => left <= right,
            Interval::UnboundedClosedRight { right } => true,
            Interval::UnboundedOpenRight { right } => true,
            Interval::UnboundedClosedLeft { left } => true,
            Interval::UnboundedOpenLeft { left } => true,
            Interval::Singleton { at } => true,
            Interval::Unbounded => true,
            Interval::Empty => true,
        }
    }

    /// The set of domain points this interval covers.
    pub open spec fn contains_pt(self, p: int) -> bool {
        match self {
            Interval::Closed { left, right } => left <= p && p <= right,
            Interval::Open { left, right } => left < p && p < right,
            Interval::LeftHalfOpen { left, right } => left < p && p <= right,
            Interval::RightHalfOpen { left, right } => left <= p && p < right,
            Interval::UnboundedClosedRight { right } => p <= right,
            Interval::UnboundedOpenRight { right } => p < right,
            Interval::UnboundedClosedLeft { left } => left <= p,
            Interval::UnboundedOpenLeft { left } => left < p,
            Interval::Singleton { at } => p == at,
            Interval::Unbounded => true,
            Interval::Empty => false,
        }
    }

    /// The left-end constraint of a non-empty interval (`Unbound` for the
    /// empty one, whose point set does not depend on it).
    pub open spec fn left_bnd(self) -> IntervalBound {
        match self {
            Interval::Closed { left, right } => IntervalBound::ClosedAt { v: left },
            Interval::Open { left, right } => IntervalBound::OpenAt { v: left },
            Interval::LeftHalfOpen { left, right } => IntervalBound::OpenAt { v: left },
            Interval::RightHalfOpen { left, right } => IntervalBound::ClosedAt { v: left },
            Interval::UnboundedClosedRight { right } => IntervalBound::Unbound,
            Interval::UnboundedOpenRight { right } => IntervalBound::Unbound,
            Interval::UnboundedClosedLeft { left } => IntervalBound::ClosedAt { v: left },
            Interval::UnboundedOpenLeft { left } => IntervalBound::OpenAt { v: left },
            Interval::Singleton { at } => IntervalBound::ClosedAt { v: at },
            Interval::Unbounded => IntervalBound::Unbound,
            Interval::Empty => IntervalBound::Unbound,
        }
    }

    /// The right-end constraint of a non-empty interval.
    pub open spec fn right_bnd(self) -> IntervalBound {
        match self {
            Interval::Closed { left, right } => IntervalBound::ClosedAt { v: right },
            Interval::Open { left, right } => IntervalBound::OpenAt { v: right },
            Interval::LeftHalfOpen { left, right } => IntervalBound::ClosedAt { v: right },
            Interval::RightHalfOpen { left, right } => IntervalBound::OpenAt { v: right },
            Interval::UnboundedClosedRight { right } => IntervalBound::ClosedAt { v: right },
            Interval::UnboundedOpenRight { right } => IntervalBound::OpenAt { v: right },
            Interval::UnboundedClosedLeft { left } => IntervalBound::Unbound,
            Interval::UnboundedOpenLeft { left } => IntervalBound::Unbound,
            Interval::Singleton { at } => IntervalBound::ClosedAt { v: at },
            Interval::Unbounded => IntervalBound::Unbound,
            Interval::Empty => IntervalBound::Unbound,
        }
    }

    /// The intersection of two intervals, in the normal form of
    /// [`from_bounds_spec`]: the tighter left end meets the tighter right
    /// end, and an empty outcome is the `Empty` variant.
    pub open spec fn spec_intersect(self, other: Interval) -> Interval {
        if self is Empty || other is Empty {
            Interval::Empty
        } else {
            from_bounds_spec(
                tighter_left_spec(self.left_bnd(), other.left_bnd()),
                tighter_right_spec(self.right_bnd(), other.right_bnd()),
            )
        }
    }

    /// Comparison of the right bounds of two intervals; `Unordered` exactly
    /// when either side is empty.
    pub open spec fn spec_right_compare(self, other: Interval) -> IntervalOrder {
        if self is Empty || other is Empty {
            IntervalOrder::Unordered
        } else {
            right_bound_cmp(self.right_bnd(), other.right_bnd())
        }
    }

    /// Containment test for a single domain point.
    pub fn contains_point(&self, at: i64) -> (r: bool)
        ensures
            r == self.contains_pt(at as int),
    {
        match *self {
            Interval::Closed { left, right } => left <= at && at <= right,
            Interval::Open { left, right } => left < at && at < right,
            Interval::LeftHalfOpen { left, right } => left < at && at <= right,
            Interval::RightHalfOpen { left, right } => left <= at && at < right,
            Interval::UnboundedClosedRight { right } => at <= right,
            Interval::UnboundedOpenRight { right } => at < right,
            Interval::UnboundedClosedLeft { left } => left <= at,
            Interval::UnboundedOpenLeft { left } => left < at,
            Interval::Singleton { at: a } => at == a,
            Interval::Unbounded => true,
            Interval::Empty => false,
        }
    }

    fn left_bound(&self) -> (b: IntervalBound)
        ensures
            b == self.left_bnd(),
    {
        match *self {
            Interval::Closed { left, right } => IntervalBound::ClosedAt { v: left },
            Interval::Open { left, right } => IntervalBound::OpenAt { v: left },
            Interval::LeftHalfOpen { left, right } => IntervalBound::OpenAt { v: left },
            Interval::RightHalfOpen { left, right } => IntervalBound::ClosedAt { v: left },
            Interval::UnboundedClosedRight { right } => IntervalBound::Unbound,
            Interval::UnboundedOpenRight { right } => IntervalBound::Unbound,
            Interval::UnboundedClosedLeft { left } => IntervalBound::ClosedAt { v: left },
            Interval::UnboundedOpenLeft { left } => IntervalBound::OpenAt { v: left },
            Interval::Singleton { at } => IntervalBound::ClosedAt { v: at },
            Interval::Unbounded => IntervalBound::Unbound,
            Interval::Empty => IntervalBound::Unbound,
        }
    }

    fn right_bound(&self) -> (b: IntervalBound)
        ensures
            b == self.right_bnd(),
    {
        match *self {
            Interval::Closed { left, right } => IntervalBound::ClosedAt { v: right },
            Interval::Open { left, right } => IntervalBound::OpenAt { v: right },
            Interval::LeftHalfOpen { left, right } => IntervalBound::ClosedAt { v: right },
            Interval::RightHalfOpen { left, right } => IntervalBound::OpenAt { v: right },
            Interval::UnboundedClosedRight { right } => IntervalBound::ClosedAt { v: right },
            Interval::UnboundedOpenRight { right } => IntervalBound::OpenAt { v: right },
            Interval::UnboundedClosedLeft { left } => IntervalBound::Unbound,
            Interval::UnboundedOpenLeft { left } => IntervalBound::Unbound,
            Interval::Singleton { at } => IntervalBound::ClosedAt { v: at },
            Interval::Unbounded => IntervalBound::Unbound,
            Interval::Empty => IntervalBound::Unbound,
        }
    }

    /// The intersection of two intervals.  The result's points are exactly
    /// the points shared by both inputs; an empty result is always the
    /// `Empty` variant.
    pub fn intersect(&self, other: &Interval) -> (r: Interval)
        ensures
            r == self.spec_intersect(*other),
            forall|p: int| #[trigger] r.contains_pt(p) == (self.contains_pt(p) && other.contains_pt(p)),
    {
        let r: Interval;
        if matches!(*self, Interval::Empty) || matches!(*other, Interval::Empty) {
            r = Interval::Empty;
        } else {
            let lb = tighter_left(self.left_bound(), other.left_bound());
            let rb = tighter_right(self.right_bound(), other.right_bound());
            r = from_bounds(lb, rb);
        }
        proof {
            lemma_intersect_pts(*self, *other);
        }
        r
    }

    /// The complement: the one or two intervals covering exactly the points
    /// this interval does not cover.  The complement of the full line is the
    /// single `Empty` interval.  For a well-formed interval the two pieces
    /// of a two-piece complement share no point.
    pub fn complement(&self) -> (r: Vec<Interval>)
        ensures
            1 <= r@.len() <= 2,
            forall|k: int, p: int|
                0 <= k < r@.len() && #[trigger] r@[k].contains_pt(p) ==> !self.contains_pt(p),
            forall|p: int|
                #![trigger self.contains_pt(p)]
                !self.contains_pt(p) ==> exists|k: int|
                    0 <= k < r@.len() && #[trigger] r@[k].contains_pt(p),
            forall|p: int|
                self.well_formed() && r@.len() == 2 && #[trigger] r@[0].contains_pt(p)
                    ==> !r@[1].contains_pt(p),
    {
        let mut v: Vec<Interval> = Vec::new();
        match *self {
            Interval::Closed { left, right } => {
                v.push(Interval::UnboundedOpenRight { right: left });
                v.push(Interval::UnboundedOpenLeft { left: right });
            },
            Interval::Open { left, right } => {
                v.push(Interval::UnboundedClosedRight { right: left });
                v.push(Interval::UnboundedClosedLeft { left: right });
            },
            Interval::LeftHalfOpen { left, right } => {
                v.push(Interval::UnboundedClosedRight { right: left });
                v.push(Interval::UnboundedOpenLeft { left: right });
            },
            Interval::RightHalfOpen { left, right } => {
                v.push(Interval::UnboundedOpenRight { right: left });
                v.push(Interval::UnboundedClosedLeft { left: right });
            },
            Interval::UnboundedClosedRight { right } => {
                v.push(Interval::UnboundedOpenLeft { left: right });
            },
            Interval::UnboundedOpenRight { right } => {
                v.push(Interval::UnboundedClosedLeft { left: right });
            },
            Interval::UnboundedClosedLeft { left } => {
                v.push(Interval::UnboundedOpenRight { right: left });
            },
            Interval::UnboundedOpenLeft { left } => {
                v.push(Interval::UnboundedClosedRight { right: left });
            },
            Interval::Singleton { at } => {
                v.push(Interval::UnboundedOpenRight { right: at });
                v.push(Interval::UnboundedOpenLeft { left: at });
            },
            Interval::Unbounded => {
                v.push(Interval::Empty);
            },
            Interval::Empty => {
                v.push(Interval::Unbounded);
            },
        }
        proof {
            assert forall|p: int| !self.contains_pt(p) implies exists|k: int|
                0 <= k < v@.len() && #[trigger] v@[k].contains_pt(p) by {
                if v@[0].contains_pt(p) {
                } else {
                    assert(v@[1].contains_pt(p));
                }
            }
        }
        v
    }

    /// Comparison of two intervals by their right bounds, usable as a merge
    /// key.  `Unordered` exactly when either interval is empty.
    pub fn right_compare(&self, other: &Interval) -> (o: IntervalOrder)
        ensures
            o == self.spec_right_compare(*other),
    {
        if matches!(*self, Interval::Empty) || matches!(*other, Interval::Empty) {
            return IntervalOrder::Unordered;
        }
        let a = self.right_bound();
        let b = other.right_bound();
        match (a, b) {
            (IntervalBound::Unbound, IntervalBound::Unbound) => IntervalOrder::Equal,
            (IntervalBound::Unbound, _) => IntervalOrder::Greater,
            (_, IntervalBound::Unbound) => IntervalOrder::Less,
            (IntervalBound::ClosedAt { v: x }, IntervalBound::ClosedAt { v: y }) => if x < y {
                IntervalOrder::Less
            } else if x > y {
                IntervalOrder::Greater
            } else {
                IntervalOrder::Equal
            },
            (IntervalBound::ClosedAt { v: x }, IntervalBound::OpenAt { v: y }) => if x < y {
                IntervalOrder::Less
            } else {
                IntervalOrder::Greater
            },
            (IntervalBound::OpenAt { v: x }, IntervalBound::ClosedAt { v: y }) => if x <= y {
                IntervalOrder::Less
            } else {
                IntervalOrder::Greater
            },
            (IntervalBound::OpenAt { v: x }, IntervalBound::OpenAt { v: y }) => if x < y {
                IntervalOrder::Less
            } else if x > y {
                IntervalOrder::Greater
            } else {
                IntervalOrder::Equal
            },
        }
    }
}

fn tighter_left(a: IntervalBound, b: IntervalBound) -> (r: IntervalBound)
    ensures
        r == tighter_left_spec(a, b),
{
    match (a, b) {
        (IntervalBound::Unbound, _) => b,
        (_, IntervalBound::Unbound) => a,
        (IntervalBound::ClosedAt { v: x }, IntervalBound::ClosedAt { v: y }) => if x >= y { a } else { b },
        (IntervalBound::ClosedAt { v: x }, IntervalBound::OpenAt { v: y }) => if x > y { a } else { b },
        (IntervalBound::OpenAt { v: x }, IntervalBound::ClosedAt { v: y }) => if x >= y { a } else { b },
        (IntervalBound::OpenAt { v: x }, IntervalBound::OpenAt { v: y }) => if x >= y { a } else { b },
    }
}

fn tighter_right(a: IntervalBound, b: IntervalBound) -> (r: IntervalBound)
    ensures
        r == tighter_right_spec(a, b),
{
    match (a, b) {
        (IntervalBound::Unbound, _) => b,
        (_, IntervalBound::Unbound) => a,
        (IntervalBound::ClosedAt { v: x }, IntervalBound::ClosedAt { v: y }) => if x <= y { a } else { b },
        (IntervalBound::ClosedAt { v: x }, IntervalBound::OpenAt { v: y }) => if x < y { a } else { b },
        (IntervalBound::OpenAt { v: x }, IntervalBound::ClosedAt { v: y }) => if x <= y { a } else { b },
        (IntervalBound::OpenAt { v: x }, IntervalBound::OpenAt { v: y }) => if x <= y { a } else { b },
    }
}

fn from_bounds(lb: IntervalBound, rb: IntervalBound) -> (r: Interval)
    ensures
        r == from_bounds_spec(lb, rb),
{
    match (lb, rb) {
        (IntervalBound::Unbound, IntervalBound::Unbound) => Interval::Unbounded,
        (IntervalBound::Unbound, IntervalBound::ClosedAt { v: r }) => Interval::UnboundedClosedRight { right: r },
        (IntervalBound::Unbound, IntervalBound::OpenAt { v: r }) => Interval::UnboundedOpenRight { right: r },
        (IntervalBound::ClosedAt { v: l }, IntervalBound::Unbound) => Interval::UnboundedClosedLeft { left: l },
        (IntervalBound::OpenAt { v: l }, IntervalBound::Unbound) => Interval::UnboundedOpenLeft { left: l },
        (IntervalBound::ClosedAt { v: l }, IntervalBound::ClosedAt { v: r }) => if l > r {
            Interval::Empty
        } else if l == r {
            Interval::Singleton { at: l }
        } else {
            Interval::Closed { left: l, right: r }
        },
        (IntervalBound::ClosedAt { v: l }, IntervalBound::OpenAt { v: r }) => if l >= r {
            Interval::Empty
        } else {
            Interval::RightHalfOpen { left: l, right: r }
        },
        (IntervalBound::OpenAt { v: l }, IntervalBound::ClosedAt { v: r }) => if l >= r {
            Interval::Empty
        } else {
            Interval::LeftHalfOpen { left: l, right: r }
        },
        (IntervalBound::OpenAt { v: l }, IntervalBound::OpenAt { v: r }) => if l >= r {
            Interval::Empty
        } else {
            Interval::Open { left: l, right: r }
        },
    }
}

/// Membership in a non-empty interval is exactly the conjunction of its two
/// end constraints.
pub proof fn lemma_contains_via_bounds(i: Interval)
    ensures
        forall|p: int| #[trigger]
            i.contains_pt(p) == (!(i is Empty) && sat_left(i.left_bnd(), p) && sat_right(
                i.right_bnd(),
                p,
            )),
{
}

/// A point under a right-end constraint is under every constraint at least
/// as large.
pub proof fn lemma_right_bound_le(b1: IntervalBound, b2: IntervalBound, p: int)
    requires
        !(right_bound_cmp(b1, b2) is Greater),
        sat_right(b1, p),
    ensures
        sat_right(b2, p),
{
}

/// A point beyond the right end of a non-empty bound combination satisfies
/// its left constraint.
pub proof fn lemma_bounds_room(lb: IntervalBound, rb: IntervalBound, q: int)
    requires
        !(from_bounds_spec(lb, rb) is Empty),
        !sat_right(rb, q),
    ensures
        sat_left(lb, q),
{
}

/// The right-bound order chains: a step down followed by a step down or
/// sideways, with at least one strict step, lands strictly below.
pub proof fn lemma_right_compare_chain(x: Interval, y: Interval, z: Interval)
    requires
        x.spec_right_compare(y) is Less || x.spec_right_compare(y) is Equal,
        y.spec_right_compare(z) is Less || y.spec_right_compare(z) is Equal,
        !(x.spec_right_compare(y) is Equal) || !(y.spec_right_compare(z) is Equal),
    ensures
        x.spec_right_compare(z) is Less,
{
}

/// The right-bound order is antisymmetric, and equality is symmetric.
pub proof fn lemma_right_compare_flip(x: Interval, y: Interval)
    ensures
        (x.spec_right_compare(y) is Less) == (y.spec_right_compare(x) is Greater),
        (x.spec_right_compare(y) is Equal) == (y.spec_right_compare(x) is Equal),
{
}

/// Two intervals sharing no point, with the first's right bound strictly
/// below the second's, are ordered pointwise: every point of the first
/// lies strictly before every point of the second.
pub proof fn lemma_disjoint_ordered(a: Interval, b: Interval, x: int, y: int)
    requires
        forall|p: int| #[trigger] a.contains_pt(p) ==> !b.contains_pt(p),
        a.spec_right_compare(b) is Less,
        a.contains_pt(x),
        b.contains_pt(y),
    ensures
        x < y,
{
    if y <= x {
        lemma_contains_via_bounds(a);
        lemma_contains_via_bounds(b);
        lemma_right_bound_le(a.right_bnd(), b.right_bnd(), x);
        assert(sat_left(b.left_bnd(), x));
        assert(b.contains_pt(x));
        assert(false);
    }
}

/// The points of an intersection are exactly the points shared by the two
/// inputs.
pub proof fn lemma_intersect_pts(a: Interval, b: Interval)
    ensures
        forall|p: int| #[trigger]
            a.spec_intersect(b).contains_pt(p) == (a.contains_pt(p) && b.contains_pt(p)),
{
    if a is Empty || b is Empty {
    } else {
        let lb = tighter_left_spec(a.left_bnd(), b.left_bnd());
        let rb = tighter_right_spec(a.right_bnd(), b.right_bnd());
        assert forall|p: int| #[trigger]
            a.spec_intersect(b).contains_pt(p) == (a.contains_pt(p) && b.contains_pt(p)) by {
            assert(sat_left(lb, p) == (sat_left(a.left_bnd(), p) && sat_left(b.left_bnd(), p)));
            assert(sat_right(rb, p) == (sat_right(a.right_bnd(), p) && sat_right(b.right_bnd(), p)));
            assert(from_bounds_spec(lb, rb).contains_pt(p) == (sat_left(lb, p) && sat_right(rb, p)));
            assert(a.contains_pt(p) == (sat_left(a.left_bnd(), p) && sat_right(a.right_bnd(), p)));
            assert(b.contains_pt(p) == (sat_left(b.left_bnd(), p) && sat_right(b.right_bnd(), p)));
        }
    }
}

} // verus!
