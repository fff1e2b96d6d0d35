use std::cmp::Reverse;
use std::collections::BinaryHeap;
use geometry_rtree::search_frontier::SearchFrontier;

const DEFAULT_INLINE_CAPACITY: usize = 192;

fn lcg_keys(n: usize) -> Vec<u64> {
    let mut state: u64 = 0x9E37_79B9_7F4A_7C15;
    (0..n)
        .map(|_| {
            state = state
                .wrapping_mul(6_364_136_223_846_793_005)
                .wrapping_add(1_442_695_040_888_963_407);
            state >> 32
        })
        .collect()
}

fn drain<const CAPACITY: usize>(frontier: &mut SearchFrontier<CAPACITY>) -> Vec<u64> {
    let mut popped = Vec::new();
    while let Some((key, _)) = frontier.pop() {
        popped.push(u64::try_from(key).unwrap());
    }
    popped
}

fn assert_spill_boundary<const CAPACITY: usize>() {
    for n in [CAPACITY, CAPACITY + 1] {
        let keys = lcg_keys(n);
        let mut frontier: SearchFrontier<CAPACITY> = SearchFrontier::new();
        for (i, &key) in keys.iter().enumerate() {
            frontier.push((i128::from(key), i));
        }
        assert_eq!(frontier.is_spilled(), n > CAPACITY);
        let mut expected = keys;
        expected.sort_unstable();
        assert_eq!(drain(&mut frontier), expected);
    }
}

#[test]
fn spill_boundary() {
    assert_spill_boundary::<4>();
    assert_spill_boundary::<DEFAULT_INLINE_CAPACITY>();
}

#[test]
fn pops_ascending_within_inline() {
    let keys = lcg_keys(DEFAULT_INLINE_CAPACITY - 1);
    let mut frontier: SearchFrontier<DEFAULT_INLINE_CAPACITY> = SearchFrontier::new();
    for (i, &key) in keys.iter().enumerate() {
        frontier.push((i128::from(key), i));
    }
    assert!(!frontier.is_spilled());
    let mut expected = keys;
    expected.sort_unstable();
    assert_eq!(drain(&mut frontier), expected);
}

#[test]
fn interleaved_push_pop_matches_a_sorted_reference() {
    let mut frontier: SearchFrontier<DEFAULT_INLINE_CAPACITY> = SearchFrontier::new();
    let mut reference: Vec<(i128, usize)> = Vec::new();
    for (i, key) in lcg_keys(2 * DEFAULT_INLINE_CAPACITY).into_iter().enumerate() {
        frontier.push((i128::from(key), i));
        reference.push((i128::from(key), i));
        if i % 3 == 0 {
            reference.sort_unstable_by(|a, b| b.cmp(a));
            assert_eq!(frontier.pop(), reference.pop());
        }
    }
    assert!(frontier.is_spilled());
    reference.sort_unstable_by(|a, b| b.cmp(a));
    loop {
        let (got, expected) = (frontier.pop(), reference.pop());
        assert_eq!(got, expected);
        if got.is_none() {
            break;
        }
    }
    assert_eq!(frontier.len(), 0);
}

#[test]
fn interleaved_push_pop_matches_binary_heap() {
    let mut frontier: SearchFrontier<DEFAULT_INLINE_CAPACITY> = SearchFrontier::new();
    let mut reference: BinaryHeap<Reverse<(i128, usize)>> = BinaryHeap::new();
    for (i, key) in lcg_keys(2 * DEFAULT_INLINE_CAPACITY).into_iter().enumerate() {
        frontier.push((i128::from(key), i));
        reference.push(Reverse((i128::from(key), i)));
        if i % 3 == 0 {
            assert_eq!(frontier.pop(), reference.pop().map(|Reverse(e)| e));
        }
    }
    assert!(frontier.is_spilled());
    loop {
        let (got, expected) = (frontier.pop(), reference.pop().map(|Reverse(e)| e));
        assert_eq!(got, expected);
        if got.is_none() {
            break;
        }
    }
}

#[test]
fn extend_spills_exactly_past_the_inline_limit() {
    let mut frontier: SearchFrontier<4> = SearchFrontier::new();
    frontier.extend(vec![(3, 0), (1, 1)]);
    assert!(!frontier.is_spilled());
    frontier.extend(vec![(2, 2), (0, 3)]);
    assert!(!frontier.is_spilled());
    assert_eq!(frontier.peek(), Some((0, 3)));
    frontier.extend(vec![(5, 4)]);
    assert!(frontier.is_spilled());
    assert_eq!(frontier.len(), 5);
    assert_eq!(drain(&mut frontier), vec![0, 1, 2, 3, 5]);
}
