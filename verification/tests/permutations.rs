use edge_match::permute::{count_valid_permutations, Counter};

fn orderings(n: usize) -> Vec<Vec<usize>> {
    let mut items: Vec<usize> = (0..n).collect();
    let mut counter = Counter::new(n);
    let mut seen = vec![items.clone()];
    while let Some((a, b)) = counter.next_swap() {
        assert!(a < b && b < n);
        items.swap(a, b);
        seen.push(items.clone());
    }
    assert_eq!(counter.next_swap(), None);
    seen
}

#[test]
fn counter_gives_the_first_swaps_of_plain_changes() {
    let mut counter = Counter::new(4);
    let mut swaps = Vec::new();
    for _ in 0..8 {
        swaps.push(counter.next_swap());
    }
    assert_eq!(
        swaps,
        vec![
            Some((0, 1)),
            Some((0, 2)),
            Some((0, 1)),
            Some((0, 2)),
            Some((0, 1)),
            Some((0, 3)),
            Some((0, 1)),
            Some((0, 2)),
        ]
    );
}

#[test]
fn counter_visits_every_ordering_once() {
    let mut want = 1;
    for n in 0..=7usize {
        if n > 0 {
            want *= n;
        }
        let mut seen = orderings(n);
        assert_eq!(seen.len(), want);
        seen.sort();
        seen.dedup();
        assert_eq!(seen.len(), want);
    }
}

#[test]
fn counter_over_no_or_one_element_has_no_step() {
    assert_eq!(Counter::new(0).next_swap(), None);
    assert_eq!(Counter::new(1).next_swap(), None);
}

#[test]
fn odd_pivot_swaps_with_the_digit_position() {
    let mut counter = Counter { c: [0, 1, 2, 1, 0, 0, 0, 0, 0, 0, 0, 0, 0, 0, 0, 0], n: 5 };
    assert_eq!(counter.next_swap(), Some((1, 3)));
    assert_eq!(counter.c, [0, 0, 0, 2, 0, 0, 0, 0, 0, 0, 0, 0, 0, 0, 0, 0]);
}

#[test]
fn unique_two_by_two_has_one_valid_ordering() {
    let state = [0x0200, 0xf300, 0x001d, 0xe00c, 0, 0, 0, 0, 0, 0, 0, 0, 0, 0, 0, 0];
    assert_eq!(count_valid_permutations(&state, 2), 1);
}

#[test]
fn equal_tiles_count_once_for_each_ordering() {
    // every tile fits every other on all sides it touches
    let tile = 0x0ff0;
    let state = [tile; 16];
    assert_eq!(count_valid_permutations(&state, 2), 24);
    assert_eq!(count_valid_permutations(&state, 1), 1);
    assert_eq!(count_valid_permutations(&state, 0), 1);
    assert_eq!(count_valid_permutations(&state, 3), 362880);
}

#[test]
fn mismatched_tiles_have_no_valid_ordering() {
    let state = [0u16; 16];
    assert_eq!(count_valid_permutations(&state, 2), 0);
    assert_eq!(count_valid_permutations(&state, 3), 0);
}
