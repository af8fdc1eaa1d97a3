use sorting::{
    sort, BubbleSort, HeapSort, InsertionSort, MergeSort, QuickSort, SelectionSort, Sorter,
    StdSorter,
};

/// Runs every strategy on a copy of `input` and returns the outputs, the
/// standard library's first.
fn run_all(input: &[i64]) -> Vec<Vec<i64>> {
    let mut outs = Vec::new();
    let mut v = input.to_vec();
    sort(&mut v, StdSorter);
    outs.push(v);
    let mut v = input.to_vec();
    sort(&mut v, BubbleSort);
    outs.push(v);
    let mut v = input.to_vec();
    sort(&mut v, InsertionSort { smart: false });
    outs.push(v);
    let mut v = input.to_vec();
    sort(&mut v, InsertionSort { smart: true });
    outs.push(v);
    let mut v = input.to_vec();
    sort(&mut v, SelectionSort);
    outs.push(v);
    let mut v = input.to_vec();
    sort(&mut v, QuickSort);
    outs.push(v);
    let mut v = input.to_vec();
    sort(&mut v, HeapSort);
    outs.push(v);
    let mut v = input.to_vec();
    sort(&mut v, MergeSort);
    outs.push(v);
    outs
}

/// A fixed pseudo-random sequence from a linear congruential generator.
fn pseudo_random(n: usize, seed: u64) -> Vec<i64> {
    let mut state = seed;
    let mut out = Vec::new();
    for _ in 0..n {
        state = state.wrapping_mul(6364136223846793005).wrapping_add(1442695040888963407);
        out.push(((state >> 33) % 100) as i64 - 50);
    }
    out
}

fn counts(v: &[i64]) -> std::collections::BTreeMap<i64, usize> {
    let mut m = std::collections::BTreeMap::new();
    for x in v {
        *m.entry(*x).or_insert(0) += 1;
    }
    m
}

#[test]
fn every_strategy_sorts_the_scenario() {
    for out in run_all(&[5, 1, 4, 2, 3]) {
        assert_eq!(out, vec![1, 2, 3, 4, 5]);
    }
}

#[test]
fn every_strategy_keeps_sorted_input() {
    for out in run_all(&[1, 2, 3, 4, 5]) {
        assert_eq!(out, vec![1, 2, 3, 4, 5]);
    }
}

#[test]
fn every_strategy_handles_empty_input() {
    for out in run_all(&[]) {
        assert!(out.is_empty());
    }
}

#[test]
fn every_strategy_handles_one_element() {
    for out in run_all(&[42]) {
        assert_eq!(out, vec![42]);
    }
}

#[test]
fn every_strategy_handles_duplicates() {
    for out in run_all(&[2, 2, 1, 1]) {
        assert_eq!(out, vec![1, 1, 2, 2]);
    }
}

#[test]
fn every_strategy_handles_reverse_input() {
    for out in run_all(&[9, 8, 7, 6, 5, 4, 3, 2, 1, 0]) {
        assert_eq!(out, vec![0, 1, 2, 3, 4, 5, 6, 7, 8, 9]);
    }
}

#[test]
fn every_strategy_handles_extreme_values() {
    for out in run_all(&[i64::MAX, 0, i64::MIN, -1, i64::MAX, i64::MIN]) {
        assert_eq!(out, vec![i64::MIN, i64::MIN, -1, 0, i64::MAX, i64::MAX]);
    }
}

#[test]
fn every_strategy_handles_two_elements() {
    for out in run_all(&[2, 1]) {
        assert_eq!(out, vec![1, 2]);
    }
    for out in run_all(&[1, 2]) {
        assert_eq!(out, vec![1, 2]);
    }
}

#[test]
fn strategies_agree_on_random_input() {
    for seed in 0..5u64 {
        let input = pseudo_random(300, seed);
        let outs = run_all(&input);
        for out in &outs {
            assert_eq!(out, &outs[0]);
            assert!(out.windows(2).all(|w| w[0] <= w[1]));
            assert_eq!(counts(out), counts(&input));
        }
    }
}

#[test]
fn sorting_twice_changes_nothing() {
    let input = pseudo_random(100, 7);
    for once in run_all(&input) {
        for twice in run_all(&once) {
            assert_eq!(twice, once);
        }
    }
}

#[test]
fn sorter_trait_called_directly() {
    let mut v = vec![3, -1, 3, 0];
    HeapSort.sort(&mut v);
    assert_eq!(v, vec![-1, 0, 3, 3]);
}

#[test]
fn quicksort_on_sorted_and_constant_input() {
    let mut v: Vec<i64> = (0..500).collect();
    QuickSort.sort(&mut v);
    assert_eq!(v, (0..500).collect::<Vec<i64>>());
    let mut w = vec![7; 64];
    QuickSort.sort(&mut w);
    assert_eq!(w, vec![7; 64]);
}

/// A key with a tag that the order ignores, to observe stability.
#[derive(Clone, Copy, Debug, PartialEq, Eq)]
struct Tagged {
    key: i32,
    tag: u32,
}

impl PartialOrd for Tagged {
    fn partial_cmp(&self, other: &Self) -> Option<std::cmp::Ordering> {
        Some(self.cmp(other))
    }
}

impl Ord for Tagged {
    fn cmp(&self, other: &Self) -> std::cmp::Ordering {
        self.key.cmp(&other.key)
    }
}

fn tagged(keys: &[i32]) -> Vec<Tagged> {
    keys.iter()
        .enumerate()
        .map(|(i, k)| Tagged { key: *k, tag: i as u32 })
        .collect()
}

fn tags(v: &[Tagged]) -> Vec<u32> {
    v.iter().map(|t| t.tag).collect()
}

#[test]
fn merge_keeps_order_of_tagged_duplicates() {
    let mut v = tagged(&[2, 2, 1, 1]);
    MergeSort.sort(&mut v);
    assert_eq!(v.iter().map(|t| t.key).collect::<Vec<i32>>(), vec![1, 1, 2, 2]);
    assert_eq!(tags(&v), vec![2, 3, 0, 1]);
}

#[test]
fn bubble_keeps_order_of_tagged_duplicates() {
    let mut v = tagged(&[2, 2, 1, 1]);
    BubbleSort.sort(&mut v);
    assert_eq!(tags(&v), vec![2, 3, 0, 1]);
}

#[test]
fn insertion_keeps_order_of_tagged_duplicates() {
    for smart in [false, true] {
        let mut v = tagged(&[2, 2, 1, 1]);
        InsertionSort { smart }.sort(&mut v);
        assert_eq!(tags(&v), vec![2, 3, 0, 1]);
    }
}

#[test]
fn stable_strategies_agree_with_std_on_tagged_input() {
    let keys: Vec<i32> = pseudo_random(200, 11).iter().map(|k| (*k % 7) as i32).collect();
    let mut expected = tagged(&keys);
    StdSorter.sort(&mut expected);
    let mut a = tagged(&keys);
    MergeSort.sort(&mut a);
    assert_eq!(tags(&a), tags(&expected));
    let mut b = tagged(&keys);
    BubbleSort.sort(&mut b);
    assert_eq!(tags(&b), tags(&expected));
    let mut c = tagged(&keys);
    InsertionSort { smart: true }.sort(&mut c);
    assert_eq!(tags(&c), tags(&expected));
    let mut d = tagged(&keys);
    InsertionSort { smart: false }.sort(&mut d);
    assert_eq!(tags(&d), tags(&expected));
}

#[test]
fn unstable_strategies_still_sort_tagged_input() {
    let keys = [3, 1, 3, 2, 1, 3, 2];
    for which in 0..3 {
        let mut v = tagged(&keys);
        match which {
            0 => SelectionSort.sort(&mut v),
            1 => QuickSort.sort(&mut v),
            _ => HeapSort.sort(&mut v),
        }
        let got: Vec<i32> = v.iter().map(|t| t.key).collect();
        assert_eq!(got, vec![1, 1, 2, 2, 3, 3, 3]);
        let mut seen = tags(&v);
        seen.sort();
        assert_eq!(seen, (0..7).collect::<Vec<u32>>());
    }
}

#[test]
fn selection_swaps_first_minimum_to_the_front() {
    let mut v = tagged(&[2, 2, 1]);
    SelectionSort.sort(&mut v);
    assert_eq!(v.iter().map(|t| t.key).collect::<Vec<i32>>(), vec![1, 2, 2]);
    assert_eq!(tags(&v), vec![2, 1, 0]);
}

#[test]
fn selection_leaves_sorted_tagged_input_alone() {
    let mut v = tagged(&[1, 1, 2, 2, 2]);
    SelectionSort.sort(&mut v);
    assert_eq!(tags(&v), vec![0, 1, 2, 3, 4]);
}

#[test]
fn selection_sorts_tagged_pairs() {
    let mut v = tagged(&[2, 2, 1, 1]);
    SelectionSort.sort(&mut v);
    assert_eq!(v.iter().map(|t| t.key).collect::<Vec<i32>>(), vec![1, 1, 2, 2]);
    let mut low = tags(&v[..2]);
    low.sort();
    assert_eq!(low, vec![2, 3]);
}

#[test]
fn std_sorter_keeps_order_of_tagged_duplicates() {
    let mut v = tagged(&[2, 2, 1, 1]);
    StdSorter.sort(&mut v);
    assert_eq!(tags(&v), vec![2, 3, 0, 1]);
}

#[test]
fn merge_sort_on_empty_or_reversed_range_does_nothing() {
    let mut v: Vec<i64> = vec![];
    MergeSort::merge_sort(&mut v, 1, 0);
    assert!(v.is_empty());
    let mut w: Vec<i64> = vec![3, 2, 1];
    MergeSort::merge_sort(&mut w, 2, 0);
    assert_eq!(w, vec![3, 2, 1]);
    MergeSort::merge_sort(&mut w, 1, 1);
    assert_eq!(w, vec![3, 2, 1]);
}

#[test]
fn merge_sort_sorts_only_its_range() {
    let mut v: Vec<i64> = vec![9, 5, 3, 4, 1, 0];
    MergeSort::merge_sort(&mut v, 1, 4);
    assert_eq!(v, vec![9, 1, 3, 4, 5, 0]);
}

#[test]
fn sift_down_touches_only_the_subtree() {
    // node 2 (value 0) is below its child 5 (value 7): not in node 1's subtree
    let mut v: Vec<i64> = vec![50, 1, 0, 9, 8, 7, 6];
    HeapSort::sift_down(&mut v, 1, 6);
    assert_eq!(v, vec![50, 9, 0, 1, 8, 7, 6]);
}

#[test]
fn sift_down_without_children_changes_nothing() {
    let mut v: Vec<i64> = vec![1, 2, 3, 4, 5];
    HeapSort::sift_down(&mut v, 2, 4);
    assert_eq!(v, vec![1, 2, 3, 4, 5]);
}

#[test]
fn sorts_arrays_and_sub_slices() {
    let mut a = [5, 1, 4, 2, 3];
    QuickSort.sort(&mut a);
    assert_eq!(a, [1, 2, 3, 4, 5]);
    let mut b = [9, 3, 2, 1, 0];
    MergeSort.sort(&mut b[1..4]);
    assert_eq!(b, [9, 1, 2, 3, 0]);
}
