use vecspet::span::SimpleSpan;
use vecspet::vecspet::VecSpet;

#[test]
fn consuming() {
    let spans = vec![SimpleSpan::new(1, 5), SimpleSpan::new(3, 7)];

    let result: VecSpet = VecSpet::from_sorted_iter(&spans);
    assert_eq!(result.spans(), &vec![SimpleSpan::new(1, 7)]);
}

#[test]
fn visiting() {
    let spans = vec![SimpleSpan::new(1, 5), SimpleSpan::new(3, 7)];

    let result: VecSpet = VecSpet::from_sorted_iter(&spans);
    assert_eq!(result.spans(), &vec![SimpleSpan::new(1, 7)]);
}

#[test]
fn vecspet_single() {
    let spans = vec![SimpleSpan::new(1, 2)];

    let result: VecSpet = VecSpet::from_sorted_iter(&spans);
    assert_eq!(result.spans(), &vec![SimpleSpan::new(1, 2)]);
}

#[test]
fn vecspet_non_overlapping() {
    let spans = vec![SimpleSpan::new(1, 2), SimpleSpan::new(3, 5)];

    let result: VecSpet = VecSpet::from_sorted_iter(&spans);
    assert_eq!(result.spans(), &vec![SimpleSpan::new(1, 2), SimpleSpan::new(3, 5)]);
}

#[test]
fn vecspet_nesting_subsets() {
    let spans = vec![
        SimpleSpan::new(1, 6),
        SimpleSpan::new(2, 5),
        SimpleSpan::new(3, 4),
    ];

    let result: VecSpet = VecSpet::from_sorted_iter(&spans);
    assert_eq!(result.spans(), &vec![SimpleSpan::new(1, 6)]);
}

#[test]
fn duplication() {
    let spans = vec![SimpleSpan::new(1, 2), SimpleSpan::new(1, 2)];

    let result: VecSpet = VecSpet::from_sorted_iter(&spans);
    assert_eq!(result.spans(), &vec![SimpleSpan::new(1, 2)]);
}

#[test]
fn vecspet_simple() {
    let a = VecSpet::from_sorted_iter(&vec![SimpleSpan::new(1, 5)]);
    let b = VecSpet::from_sorted_iter(&vec![SimpleSpan::new(3, 7)]);

    let result = a.union(&b);
    assert_eq!(result.spans(), &vec![SimpleSpan::new(1, 7)]);
}

#[test]
fn intersection_simple() {
    let a = VecSpet::from_sorted_iter(&vec![SimpleSpan::new(1, 5)]);
    let b = VecSpet::from_sorted_iter(&vec![SimpleSpan::new(3, 7)]);

    let result = a.intersection(&b);
    assert_eq!(result.spans(), &vec![SimpleSpan::new(3, 5)]);
}

#[test]
fn crush_gap() {
    let a = VecSpet::from_sorted_iter(&vec![SimpleSpan::new(1, 2), SimpleSpan::new(4, 5)]);

    let result = a.filter_gaps(|x, y| {
        assert_eq!((x, y), (2, 4));
        true
    });
    assert_eq!(result, VecSpet::from_sorted_iter(&vec![SimpleSpan::new(1, 5)]));
}

#[test]
fn crush_multiple_gaps() {
    let a = VecSpet::from_sorted_iter(&vec![
        SimpleSpan::new(1, 2),
        SimpleSpan::new(4, 5),
        SimpleSpan::new(7, 10),
    ]);

    let result = a.filter_gaps(|_, _| true);
    assert_eq!(result, VecSpet::from_sorted_iter(&vec![SimpleSpan::new(1, 10)]));
}

#[test]
fn leave_gap() {
    let a = VecSpet::from_sorted_iter(&vec![SimpleSpan::new(1, 2), SimpleSpan::new(4, 5)]);

    let result = a.filter_gaps(|x, y| {
        assert_eq!((x, y), (2, 4));
        false
    });
    assert_eq!(result, a);
}

#[test]
fn is_empty_cases() {
    let none: Vec<SimpleSpan> = Vec::new();
    assert!(VecSpet::from_sorted_iter(&none).is_empty());
    assert!(!VecSpet::from_sorted_iter(&vec![SimpleSpan::new(1, 2)]).is_empty());
}

#[test]
fn zero_length_spans_cover_nothing() {
    // A zero-length span contributes no points, so it vanishes from the
    // canonical form.
    let result = VecSpet::from_sorted_iter(&vec![SimpleSpan::new(5, 5)]);
    assert!(result.is_empty());
}

#[test]
fn touching_spans_stay_separate() {
    // Half-open semantics: an end meeting a start is not an overlap.
    let spans = vec![SimpleSpan::new(1, 2), SimpleSpan::new(2, 3)];
    let result = VecSpet::from_sorted_iter(&spans);
    assert_eq!(result.spans(), &vec![SimpleSpan::new(1, 2), SimpleSpan::new(2, 3)]);
}

#[test]
fn build_is_idempotent() {
    let spans = vec![
        SimpleSpan::new(1, 4),
        SimpleSpan::new(2, 6),
        SimpleSpan::new(9, 11),
    ];
    let once = VecSpet::from_sorted_iter(&spans);
    let twice = VecSpet::from_sorted_iter(once.spans());
    assert_eq!(once, twice);
}

#[test]
fn union_is_commutative() {
    let a = VecSpet::from_sorted_iter(&vec![SimpleSpan::new(1, 3), SimpleSpan::new(8, 9)]);
    let b = VecSpet::from_sorted_iter(&vec![SimpleSpan::new(2, 5)]);
    assert_eq!(a.union(&b), b.union(&a));
}

#[test]
fn union_disjoint() {
    let a = VecSpet::from_sorted_iter(&vec![SimpleSpan::new(0, 1)]);
    let b = VecSpet::from_sorted_iter(&vec![SimpleSpan::new(2, 3)]);
    assert_eq!(a.union(&b).spans(), &vec![SimpleSpan::new(0, 1), SimpleSpan::new(2, 3)]);
}

#[test]
fn spanset_disjoint_invariant() {
    let result = VecSpet::from_sorted_iter(&vec![
        SimpleSpan::new(1, 4),
        SimpleSpan::new(2, 3),
        SimpleSpan::new(6, 8),
        SimpleSpan::new(7, 9),
    ]);
    let spans = result.spans();
    for i in 0..spans.len() {
        assert!(spans[i].start() < spans[i].end());
        if i + 1 < spans.len() {
            assert!(spans[i].end() <= spans[i + 1].start());
        }
    }
}

#[test]
fn union_is_associative() {
    let a = VecSpet::from_sorted_iter(&vec![SimpleSpan::new(1, 2)]);
    let b = VecSpet::from_sorted_iter(&vec![SimpleSpan::new(2, 3)]);
    let c = VecSpet::from_sorted_iter(&vec![SimpleSpan::new(1, 3)]);
    assert_eq!(a.union(&b).union(&c), a.union(&b.union(&c)));

    let d = VecSpet::from_sorted_iter(&vec![SimpleSpan::new(0, 1), SimpleSpan::new(5, 9)]);
    assert_eq!(a.union(&d).union(&c), a.union(&d.union(&c)));
}

fn covered(set: &VecSpet, q: i64) -> bool {
    set.spans().iter().any(|sp| sp.contains(q))
}

#[test]
fn union_coverage_matches_either_input() {
    let a = VecSpet::from_sorted_iter(&vec![SimpleSpan::new(1, 3), SimpleSpan::new(7, 9)]);
    let b = VecSpet::from_sorted_iter(&vec![SimpleSpan::new(2, 5)]);
    let u = a.union(&b);
    for q in -2..12 {
        assert_eq!(covered(&u, q), covered(&a, q) || covered(&b, q));
    }
}

#[test]
fn intersection_coverage_matches_both_inputs() {
    let a = VecSpet::from_sorted_iter(&vec![SimpleSpan::new(1, 5), SimpleSpan::new(6, 9)]);
    let b = VecSpet::from_sorted_iter(&vec![SimpleSpan::new(3, 8)]);
    let i = a.intersection(&b);
    for q in -2..12 {
        assert_eq!(covered(&i, q), covered(&a, q) && covered(&b, q));
    }
}
