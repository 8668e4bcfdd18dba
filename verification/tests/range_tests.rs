use opslib::range::{simplify, Range, RangeError};
use opslib::ranges::{OrderedRanges, UnorderedRanges};

#[test]
fn create() {
    let range = Range::<u64>::new(3, 5).unwrap();
    assert_eq!(*range.from(), 3);
    assert_eq!(*range.to(), 5);
}

#[test]
fn create_single() {
    let range = Range::<u64>::new(8, 8).unwrap();
    assert_eq!(*range.from(), 8);
    assert_eq!(*range.to(), 8);
}

#[test]
fn equality() {
    assert!(Range::<u64>::new(1, 4).unwrap() == Range::<u64>::new(1, 4).unwrap());
    assert!(Range::<u64>::new(5, 6).unwrap() != Range::<u64>::new(1, 4).unwrap());
}

#[test]
fn invalid_arguments() {
    assert_eq!(Range::<u64>::new(8, 6), Err(RangeError::InvalidRange));
}

#[test]
fn intersects() {
    assert!(Range::<u64>::new(1, 3).unwrap().intersects(&Range::<u64>::new(2, 5).unwrap()));
    assert!(Range::<u64>::new(1, 3).unwrap().intersects(&Range::<u64>::new(3, 5).unwrap()));
    assert!(!Range::<u64>::new(1, 3).unwrap().intersects(&Range::<u64>::new(4, 5).unwrap()));
}

#[test]
fn overlaps() {
    assert!(Range::<u64>::new(1, 3).unwrap().overlaps(&Range::<u64>::new(2, 5).unwrap()));
    assert!(!Range::<u64>::new(1, 3).unwrap().overlaps(&Range::<u64>::new(3, 5).unwrap()));
    assert!(!Range::<u64>::new(1, 3).unwrap().overlaps(&Range::<u64>::new(4, 5).unwrap()));
}

#[test]
fn contains() {
    assert!(Range::<u64>::new(1, 3).unwrap().contains(&2));
    assert!(!Range::<u64>::new(1, 3).unwrap().contains(&5));
}

#[test]
fn contains_range() {
    assert!(Range::<u64>::new(1, 5).unwrap().contains_range(&Range::<u64>::new(2, 4).unwrap()));
    assert!(Range::<u64>::new(1, 5).unwrap().contains_range(&Range::<u64>::new(1, 5).unwrap()));
    assert!(!Range::<u64>::new(2, 3).unwrap().contains_range(&Range::<u64>::new(1, 5).unwrap()));
    assert!(!Range::<u64>::new(2, 4).unwrap().contains_range(&Range::<u64>::new(3, 5).unwrap()));
    assert!(!Range::<u64>::new(2, 3).unwrap().contains_range(&Range::<u64>::new(4, 5).unwrap()));
}

#[test]
fn merge_touching() {
    let merged = Range::<u64>::new(1, 5).unwrap().merge(Range::<u64>::new(5, 9).unwrap());
    assert_eq!(merged, Range::<u64>::new(1, 9));
}

#[test]
fn merge_disjoint_rejected() {
    let merged = Range::<u64>::new(1, 2).unwrap().merge(Range::<u64>::new(5, 6).unwrap());
    assert_eq!(merged, Err(RangeError::DisjointMerge));
}

#[test]
fn simplify_separate() {
    let input = vec![
        Range::<u64>::new(4, 6).unwrap(),
        Range::<u64>::new(1, 3).unwrap(),
        Range::<u64>::new(8, 9).unwrap(),
    ];
    let result = simplify(input);
    let expected = vec![
        Range::<u64>::new(1, 3).unwrap(),
        Range::<u64>::new(4, 6).unwrap(),
        Range::<u64>::new(8, 9).unwrap(),
    ];
    assert_eq!(result, expected);
}

#[test]
fn order_merge_one_big() {
    let input = vec![
        Range::<u64>::new(4, 6).unwrap(),
        Range::<u64>::new(1, 4).unwrap(),
        Range::<u64>::new(0, 9).unwrap(),
    ];
    let result = simplify(input);
    let expected = vec![Range::<u64>::new(0, 9).unwrap()];
    assert_eq!(result, expected);
}

#[test]
fn order_merge_three_small() {
    let input = vec![
        Range::<u64>::new(4, 6).unwrap(),
        Range::<u64>::new(1, 4).unwrap(),
        Range::<u64>::new(5, 9).unwrap(),
    ];
    let result = simplify(input);
    let expected = vec![Range::<u64>::new(1, 9).unwrap()];
    assert_eq!(result, expected);
}

#[test]
fn order_merge_mix() {
    let input = vec![
        Range::<u64>::new(4, 6).unwrap(),
        Range::<u64>::new(1, 3).unwrap(),
        Range::<u64>::new(6, 9).unwrap(),
    ];
    let result = simplify(input);
    let expected = vec![
        Range::<u64>::new(1, 3).unwrap(),
        Range::<u64>::new(4, 9).unwrap(),
    ];
    assert_eq!(result, expected);
}

#[test]
fn simplify_empty() {
    let input: Vec<Range<u64>> = Vec::new();
    assert_eq!(simplify(input), Vec::new());
}

#[test]
fn simplify_idempotent() {
    let input = vec![
        Range::<u64>::new(4, 6).unwrap(),
        Range::<u64>::new(1, 4).unwrap(),
        Range::<u64>::new(8, 9).unwrap(),
    ];
    let once = simplify(input);
    let twice = simplify(once.clone());
    assert_eq!(twice, once);
}

#[test]
fn simplify_keeps_non_touching_neighbors() {
    let input = vec![
        Range::<u64>::new(4, 5).unwrap(),
        Range::<u64>::new(1, 3).unwrap(),
    ];
    let result = simplify(input);
    let expected = vec![
        Range::<u64>::new(1, 3).unwrap(),
        Range::<u64>::new(4, 5).unwrap(),
    ];
    assert_eq!(result, expected);
}

#[test]
fn builders_accept_ranges() {
    let ordered: OrderedRanges<u64> = OrderedRanges::new();
    let mut unordered = ordered.add(Range::<u64>::new(1, 3).unwrap());
    unordered.add(Range::<u64>::new(7, 9).unwrap());
    let mut fresh: UnorderedRanges<u64> = UnorderedRanges::new();
    fresh.add(Range::<u64>::new(2, 4).unwrap());
}
