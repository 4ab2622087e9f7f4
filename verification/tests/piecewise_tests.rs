use piecewise::Interval;
use piecewise::SmallPiecewise;
use piecewise::SmallPiecewiseBuilder;
use piecewise::ValueOverInterval;

#[test]
fn value_over_interval_mul() {
    let value_over_interval = ValueOverInterval::new(Interval::Closed { left: 1, right: 2 }, 4);

    let scaled_value = value_over_interval.scale(12);

    assert_eq!(*scaled_value.interval(), Interval::Closed { left: 1, right: 2 });
    assert_eq!(*scaled_value.value(), 48);
}

#[test]
fn builder_add_overlay() {
    let builder: SmallPiecewiseBuilder = SmallPiecewiseBuilder::new();
    let small_piecewise = builder
        .add_overlay(ValueOverInterval::new(Interval::Unbounded, 5))
        .add_overlay(ValueOverInterval::new(Interval::UnboundedClosedLeft { left: 230 }, 2))
        .add_overlay(ValueOverInterval::new(Interval::UnboundedOpenRight { right: 200 }, 1))
        .build();

    assert_eq!(small_piecewise.value_at(1), Some(1));
    assert_eq!(small_piecewise.value_at(210), Some(5));
    assert_eq!(small_piecewise.value_at(230), Some(2));
    assert_eq!(small_piecewise.value_at(231), Some(2));
}

#[test]
fn test_small_piecewise_construction() {
    let intervals = vec![
        ValueOverInterval::new(Interval::UnboundedOpenRight { right: 0 }, 1),
        ValueOverInterval::new(Interval::UnboundedClosedLeft { left: 0 }, 2),
    ];

    let piecewise: SmallPiecewise = SmallPiecewise::from_sorted_disjoint(intervals);

    assert_eq!(piecewise.value_at(-1), Some(1));
    assert_eq!(piecewise.value_at(0), Some(2));
    assert_eq!(piecewise.value_at(1), Some(2));
}

#[test]
fn test_small_piecewise_multiplication_edge_cases() {
    let builder1 = SmallPiecewiseBuilder::new();
    let piecewise1 = builder1
        .add_overlay(ValueOverInterval::new(Interval::UnboundedOpenRight { right: 0 }, 2))
        .build();

    let builder2 = SmallPiecewiseBuilder::new();
    let piecewise2 = builder2
        .add_overlay(ValueOverInterval::new(Interval::UnboundedClosedLeft { left: 0 }, 3))
        .build();

    let result = piecewise1.multiply(&piecewise2);

    assert_eq!(result.value_at(0), None);
    assert_eq!(result.value_at(-1), None);
    assert_eq!(result.value_at(1), None);
}

#[test]
fn test_small_piecewise_empty_multiplication() {
    let empty1: SmallPiecewise = SmallPiecewise::default();
    let empty2: SmallPiecewise = SmallPiecewise::default();

    let result = empty1.multiply(&empty2);
    assert_eq!(result.value_at(0), None);
}

#[test]
fn evaluation_with_gap() {
    // Two segments leaving [200, 230) uncovered: evaluation inside the gap
    // legitimately reports absence.
    let builder: SmallPiecewiseBuilder = SmallPiecewiseBuilder::new();
    let small_piecewise = builder
        .add_overlay(ValueOverInterval::new(Interval::UnboundedClosedLeft { left: 230 }, 2))
        .add_overlay(ValueOverInterval::new(Interval::UnboundedOpenRight { right: 200 }, 1))
        .build();

    assert_eq!(small_piecewise.value_at(1), Some(1));
    assert_eq!(small_piecewise.value_at(200), None);
    assert_eq!(small_piecewise.value_at(215), None);
    assert_eq!(small_piecewise.value_at(230), Some(2));
}

#[test]
fn multiplication_of_overlapping_regions() {
    let builder: SmallPiecewiseBuilder = SmallPiecewiseBuilder::new();
    let piecewise_1 = builder
        .add_overlay(ValueOverInterval::new(Interval::UnboundedClosedLeft { left: 230 }, 2))
        .add_overlay(ValueOverInterval::new(Interval::UnboundedOpenRight { right: 200 }, 1))
        .build();

    let builder = SmallPiecewiseBuilder::new();
    let piecewise_2 = builder
        .add_overlay(ValueOverInterval::new(Interval::UnboundedClosedLeft { left: 180 }, -10))
        .build();

    let result = piecewise_1.multiply(&piecewise_2);

    assert_eq!(result.value_at(1), None);
    assert_eq!(result.value_at(190), Some(-10));
    assert_eq!(result.value_at(200), None);
    assert_eq!(result.value_at(230), Some(-20));
}

#[test]
fn overlay_is_idempotent() {
    let segment = ValueOverInterval::new(Interval::Closed { left: 10, right: 20 }, 7);
    let base = ValueOverInterval::new(Interval::UnboundedOpenRight { right: 100 }, 3);

    let once = SmallPiecewiseBuilder::new().add_overlay(base).add_overlay(segment).build();
    let twice = SmallPiecewiseBuilder::new()
        .add_overlay(base)
        .add_overlay(segment)
        .add_overlay(segment)
        .build();

    for at in [-5, 9, 10, 15, 20, 21, 99, 100, 150] {
        assert_eq!(once.value_at(at), twice.value_at(at));
    }
}

#[test]
fn overlay_newest_wins_on_overlap() {
    // A = [0, 100], B = [50, 150]: every point of the overlap [50, 100]
    // takes B's value afterward.
    let a = ValueOverInterval::new(Interval::Closed { left: 0, right: 100 }, 1);
    let b = ValueOverInterval::new(Interval::Closed { left: 50, right: 150 }, 9);
    let f = SmallPiecewiseBuilder::new().add_overlay(a).add_overlay(b).build();

    assert_eq!(f.value_at(50), Some(9));
    assert_eq!(f.value_at(75), Some(9));
    assert_eq!(f.value_at(100), Some(9));
    assert_eq!(f.value_at(49), Some(1));
    assert_eq!(f.value_at(0), Some(1));
    assert_eq!(f.value_at(150), Some(9));
    assert_eq!(f.value_at(151), None);
}

#[test]
fn multiplication_tie_break_at_aligned_boundary() {
    // Both inputs end segments at the same right bound, so the merge takes
    // its aligned step with a pending segment on each side; the
    // right-induced candidate [3, 5] must win over the left-induced one.
    let lhs = SmallPiecewise::from_sorted_disjoint(vec![
        ValueOverInterval::new(Interval::Closed { left: 0, right: 5 }, 2),
        ValueOverInterval::new(Interval::Closed { left: 6, right: 10 }, 3),
    ]);
    let rhs = SmallPiecewise::from_sorted_disjoint(vec![
        ValueOverInterval::new(Interval::Closed { left: 0, right: 2 }, 5),
        ValueOverInterval::new(Interval::Closed { left: 3, right: 10 }, 7),
    ]);

    let result = lhs.multiply(&rhs);

    assert_eq!(result.value_at(1), Some(10));
    assert_eq!(result.value_at(2), Some(10));
    assert_eq!(result.value_at(4), Some(14));
    assert_eq!(result.value_at(5), Some(14));
    assert_eq!(result.value_at(6), Some(21));
    assert_eq!(result.value_at(10), Some(21));
    assert_eq!(result.value_at(11), None);
}

#[test]
fn multiplication_singleton_at_shared_boundary() {
    // Three segment ends meet at the aligned step: the left-induced product
    // degenerates to the single point 6.
    let lhs = SmallPiecewise::from_sorted_disjoint(vec![
        ValueOverInterval::new(Interval::Closed { left: 0, right: 6 }, 2),
        ValueOverInterval::new(Interval::LeftHalfOpen { left: 6, right: 10 }, 3),
    ]);
    let rhs = SmallPiecewise::from_sorted_disjoint(vec![
        ValueOverInterval::new(Interval::RightHalfOpen { left: 0, right: 6 }, 5),
        ValueOverInterval::new(Interval::Closed { left: 6, right: 10 }, 7),
    ]);

    let result = lhs.multiply(&rhs);

    assert_eq!(result.value_at(0), Some(10));
    assert_eq!(result.value_at(5), Some(10));
    assert_eq!(result.value_at(6), Some(14));
    assert_eq!(result.value_at(7), Some(21));
    assert_eq!(result.value_at(10), Some(21));
    assert_eq!(result.value_at(-1), None);
    assert_eq!(result.value_at(11), None);
}

#[test]
fn multiplication_by_empty_is_empty_everywhere() {
    let builder: SmallPiecewiseBuilder = SmallPiecewiseBuilder::new();
    let f = builder
        .add_overlay(ValueOverInterval::new(Interval::Unbounded, 4))
        .build();
    let empty: SmallPiecewise = SmallPiecewise::default();

    let left_product = f.multiply(&empty);
    let right_product = empty.multiply(&f);

    for at in [-1000, 0, 3, 1000] {
        assert_eq!(left_product.value_at(at), None);
        assert_eq!(right_product.value_at(at), None);
    }
}

#[test]
fn scaling_is_pointwise() {
    let builder: SmallPiecewiseBuilder = SmallPiecewiseBuilder::new();
    let f = builder
        .add_overlay(ValueOverInterval::new(Interval::UnboundedClosedLeft { left: 230 }, 2))
        .add_overlay(ValueOverInterval::new(Interval::UnboundedOpenRight { right: 200 }, 3))
        .build();

    let scaled = f.scale(-4);

    assert_eq!(scaled.value_at(0), Some(-12));
    assert_eq!(scaled.value_at(199), Some(-12));
    assert_eq!(scaled.value_at(200), None);
    assert_eq!(scaled.value_at(215), None);
    assert_eq!(scaled.value_at(230), Some(-8));
    assert_eq!(scaled.value_at(1000), Some(-8));
}

#[test]
fn segment_scale_keeps_interval() {
    let segment = ValueOverInterval::new(Interval::Singleton { at: 42 }, -6);
    let scaled = segment.scale(0);
    assert_eq!(*scaled.interval(), Interval::Singleton { at: 42 });
    assert_eq!(*scaled.value(), 0);
}

#[test]
fn segment_scale_wraps_on_overflow() {
    let segment = ValueOverInterval::new(Interval::Unbounded, i64::MAX);
    let scaled = segment.scale(2);
    assert_eq!(*scaled.value(), i64::MAX.wrapping_mul(2));
    assert_eq!(*scaled.value(), -2);
}

#[test]
fn interval_intersect_and_complement() {
    let a = Interval::RightHalfOpen { left: 1, right: 5 };
    let b = Interval::Open { left: -1, right: 2 };
    assert_eq!(a.intersect(&b), Interval::RightHalfOpen { left: 1, right: 2 });

    let c = Interval::Closed { left: 1, right: 5 };
    let pieces = c.complement();
    assert_eq!(pieces.len(), 2);
    assert_eq!(pieces[0], Interval::UnboundedOpenRight { right: 1 });
    assert_eq!(pieces[1], Interval::UnboundedOpenLeft { left: 5 });

    assert_eq!(
        Interval::Closed { left: 0, right: 3 }.intersect(&Interval::Closed { left: 3, right: 9 }),
        Interval::Singleton { at: 3 }
    );
    assert_eq!(
        Interval::Open { left: 0, right: 3 }.intersect(&Interval::Open { left: 3, right: 9 }),
        Interval::Empty
    );
    assert_eq!(a.intersect(&Interval::Empty), Interval::Empty);

    assert_eq!(Interval::Unbounded.complement(), vec![Interval::Empty]);
    assert_eq!(Interval::Empty.complement(), vec![Interval::Unbounded]);
}

#[test]
fn interval_contains_point_respects_openness() {
    let half_open = Interval::LeftHalfOpen { left: 1, right: 5 };
    assert!(!half_open.contains_point(1));
    assert!(half_open.contains_point(2));
    assert!(half_open.contains_point(5));
    assert!(!half_open.contains_point(6));
    assert!(Interval::Unbounded.contains_point(i64::MIN));
    assert!(!Interval::Empty.contains_point(0));
}
