use sorting::{
    BubbleSort, HeapSort, InsertionSort, MergeSort, QuickSort, SelectionSort, Sorter,
    StdSorter,
};

#[test]
fn std_works() {
    let mut tings = vec![5, 1, 4, 2, 3];
    StdSorter.sort(&mut tings);
    assert_eq!(tings, &[1, 2, 3, 4, 5]);
}

#[test]
fn bubble_works() {
    let mut tings = vec![5, 1, 4, 2, 3];
    BubbleSort.sort(&mut tings);
    assert_eq!(tings, &[1, 2, 3, 4, 5]);
}

#[test]
fn insertion_dumb_works() {
    let mut tings = vec![5, 1, 4, 2, 3];
    InsertionSort { smart: false }.sort(&mut tings);
    assert_eq!(tings, &[1, 2, 3, 4, 5]);
}

#[test]
fn insertion_smart_works() {
    let mut tings = vec![5, 1, 4, 2, 3];
    InsertionSort { smart: true }.sort(&mut tings);
    assert_eq!(tings, &[1, 2, 3, 4, 5]);
}

#[test]
fn selection_works() {
    let mut tings = vec![5, 1, 4, 2, 3];
    SelectionSort.sort(&mut tings);
    assert_eq!(tings, &[1, 2, 3, 4, 5]);
}

#[test]
fn quick_works() {
    let mut tings = vec![5, 1, 4, 2, 3];
    QuickSort.sort(&mut tings);
    assert_eq!(tings, &[1, 2, 3, 4, 5]);
}

#[test]
fn heap_works() {
    let mut tings = vec![5, 1, 4, 2, 3];
    HeapSort.sort(&mut tings);
    assert_eq!(tings, &[1, 2, 3, 4, 5]);
}

#[test]
fn merge_works() {
    let mut tings = vec![5, 1, 4, 2, 3];
    MergeSort.sort(&mut tings);
    assert_eq!(tings, &[1, 2, 3, 4, 5]);
}
