use vecspet::overlapping::n_overlapping;
use vecspet::span::SimpleSpan;
use vecspet::vecspet::VecSpet;

#[test]
fn some_overlap() {
    let result = n_overlapping(2, &vec![
        VecSpet::from_sorted_iter(&vec![SimpleSpan::new(1, 3), SimpleSpan::new(5, 6)]),
        VecSpet::from_sorted_iter(&vec![SimpleSpan::new(2, 5)]),
    ]);

    assert_eq!(result, VecSpet::from_sorted_iter(&vec![
        SimpleSpan::new(2, 3),
        SimpleSpan::new(5, 5),
    ]));
}

#[test]
fn no_overlap() {
    let result = n_overlapping(2, &vec![
        VecSpet::from_sorted_iter(&vec![SimpleSpan::new(1, 3)]),
        VecSpet::from_sorted_iter(&vec![SimpleSpan::new(5, 7)]),
    ]);

    let src: Vec<SimpleSpan> = Vec::new();
    assert_eq!(result, VecSpet::from_sorted_iter(&src));
}

#[test]
fn intersection_matches_threshold_of_two() {
    let a = VecSpet::from_sorted_iter(&vec![SimpleSpan::new(1, 5)]);
    let b = VecSpet::from_sorted_iter(&vec![SimpleSpan::new(3, 7)]);
    let via_threshold = n_overlapping(2, &vec![a.clone(), b.clone()]);
    assert_eq!(a.intersection(&b), via_threshold);
}

#[test]
fn threshold_of_one_is_union() {
    let a = VecSpet::from_sorted_iter(&vec![SimpleSpan::new(1, 3)]);
    let b = VecSpet::from_sorted_iter(&vec![SimpleSpan::new(2, 6)]);
    let merged = n_overlapping(1, &vec![a.clone(), b.clone()]);
    assert_eq!(merged, a.union(&b));
}

#[test]
fn threshold_past_span_count_is_empty() {
    let result = n_overlapping(3, &vec![
        VecSpet::from_sorted_iter(&vec![SimpleSpan::new(1, 4)]),
        VecSpet::from_sorted_iter(&vec![SimpleSpan::new(2, 5)]),
    ]);
    assert!(result.is_empty());
}

#[test]
fn three_way_overlap() {
    let result = n_overlapping(3, &vec![
        VecSpet::from_sorted_iter(&vec![SimpleSpan::new(1, 10)]),
        VecSpet::from_sorted_iter(&vec![SimpleSpan::new(2, 8)]),
        VecSpet::from_sorted_iter(&vec![SimpleSpan::new(4, 6)]),
    ]);
    assert_eq!(result.spans(), &vec![SimpleSpan::new(4, 6)]);
}

#[test]
fn threshold_over_no_collections() {
    let none: Vec<VecSpet> = Vec::new();
    assert!(n_overlapping(1, &none).is_empty());
}

#[test]
fn intersection_with_empty_is_empty() {
    let a = VecSpet::from_sorted_iter(&vec![SimpleSpan::new(1, 5)]);
    let none: Vec<SimpleSpan> = Vec::new();
    let empty = VecSpet::from_sorted_iter(&none);
    assert!(a.intersection(&empty).is_empty());
    assert!(empty.intersection(&a).is_empty());
}
