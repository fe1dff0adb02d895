use vecspet::points::{enumerate_points, Point, PointIterator};
use vecspet::points::Point::{EndOf, StartOf};
use vecspet::span::SimpleSpan;

fn collect(mut it: PointIterator) -> Vec<Point> {
    let mut got: Vec<Point> = Vec::new();
    while let Some(p) = it.next() {
        got.push(p);
    }
    got
}

#[test]
fn consuming_iter() {
    let spans: Vec<SimpleSpan> = vec![SimpleSpan::new(1, 2), SimpleSpan::new(1, 3)];

    // Spans are plain copies, so the expected events hold their own copies.
    let expected = vec![
        StartOf(spans[0]),
        StartOf(spans[1]),
        EndOf(spans[0]),
        EndOf(spans[1]),
    ];

    assert_eq!(collect(enumerate_points(&spans)), expected);
}

#[test]
fn visiting_iter() {
    let spans: Vec<SimpleSpan> = vec![SimpleSpan::new(1, 2), SimpleSpan::new(1, 3)];

    assert_eq!(collect(enumerate_points(&spans)), vec![
        StartOf(spans[0]),
        StartOf(spans[1]),
        EndOf(spans[0]),
        EndOf(spans[1]),
    ]);
}

#[test]
fn subset() {
    let spans: Vec<SimpleSpan> = vec![SimpleSpan::new(1, 4), SimpleSpan::new(2, 3)];

    assert_eq!(collect(enumerate_points(&spans)), vec![
        StartOf(spans[0]),
        StartOf(spans[1]),
        EndOf(spans[1]),
        EndOf(spans[0]),
    ]);
}

#[test]
fn points_nesting_subsets() {
    // This is the worst case because the set of open ends grows to its
    // maximum size of N.
    let spans: Vec<SimpleSpan> = vec![
        SimpleSpan::new(1, 10),
        SimpleSpan::new(2, 9),
        SimpleSpan::new(3, 8),
        SimpleSpan::new(4, 7),
        SimpleSpan::new(5, 6),
    ];

    assert_eq!(collect(enumerate_points(&spans)), vec![
        StartOf(spans[0]),
        StartOf(spans[1]),
        StartOf(spans[2]),
        StartOf(spans[3]),
        StartOf(spans[4]),
        EndOf(spans[4]),
        EndOf(spans[3]),
        EndOf(spans[2]),
        EndOf(spans[1]),
        EndOf(spans[0]),
    ]);
}

#[test]
fn points_non_overlapping() {
    let spans: Vec<SimpleSpan> = vec![SimpleSpan::new(1, 2), SimpleSpan::new(4, 5)];

    assert_eq!(collect(enumerate_points(&spans)), vec![
        StartOf(spans[0]),
        EndOf(spans[0]),
        StartOf(spans[1]),
        EndOf(spans[1]),
    ]);
}

#[test]
fn empty() {
    let spans: Vec<SimpleSpan> = vec![];

    assert_eq!(collect(enumerate_points(&spans)), vec![]);
}

#[test]
fn points_single() {
    let spans: Vec<SimpleSpan> = vec![SimpleSpan::new(1, 2)];

    assert_eq!(collect(enumerate_points(&spans)), vec![
        StartOf(spans[0]),
        EndOf(spans[0]),
    ]);
}

#[test]
fn point_value() {
    assert_eq!(StartOf(SimpleSpan::new(3, 9)).value(), 3);
    assert_eq!(EndOf(SimpleSpan::new(3, 9)).value(), 9);
}

#[test]
fn span_contains() {
    let sp = SimpleSpan::new(1, 5);
    assert!(sp.contains(1));
    assert!(sp.contains(4));
    assert!(!sp.contains(5));
    assert!(!sp.contains(0));
    assert_eq!(sp.start(), 1);
    assert_eq!(sp.end(), 5);
}
