use vecspet::mergeiter::sorted_chain;

fn collect(mut chain: vecspet::mergeiter::SortedChain) -> Vec<i64> {
    let mut got: Vec<i64> = Vec::new();
    while let Some(v) = chain.next() {
        got.push(v);
    }
    got
}

#[test]
fn no_iterables() {
    let merged = sorted_chain(Vec::<Vec<i64>>::new());
    assert_eq!(collect(merged), vec![]);
}

#[test]
fn empty_iterables() {
    let merged = sorted_chain(vec![vec![], vec![], vec![]] as Vec<Vec<i64>>);
    assert_eq!(collect(merged), vec![]);
}

#[test]
fn several_small() {
    let merged = sorted_chain(vec![vec![1, 4], vec![1, 2, 3], vec![1, 3]]);
    assert_eq!(collect(merged), vec![1, 1, 1, 2, 3, 3, 4]);
}

#[test]
fn borrowing() {
    let mut iterables = vec![vec![1, 4], vec![1, 2, 3], vec![1, 3]];
    let merged = sorted_chain(iterables.clone());
    assert_eq!(collect(merged), vec![1, 1, 1, 2, 3, 3, 4]);

    // And we still get to do stuff with iterables.
    iterables.push(vec![1, 5]);
    assert_eq!(iterables.len(), 4);
}

#[test]
fn single_source() {
    let merged = sorted_chain(vec![vec![2, 2, 7]]);
    assert_eq!(collect(merged), vec![2, 2, 7]);
}
