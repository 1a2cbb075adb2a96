use quicksort::post::{dedup, process, reverse};
use quicksort::sort::{partition, quick_sort};

#[test]
fn sorts_ascending() {
    let mut v = vec![5, 3, 8, 1];
    quick_sort(&mut v);
    assert_eq!(v, vec![1, 3, 5, 8]);
}

#[test]
fn sortedness_holds_pairwise() {
    let mut v = vec![9, -4, 7, 0, 7, -4, 3, 12, -100, 3];
    quick_sort(&mut v);
    for i in 0..v.len() {
        for j in i + 1..v.len() {
            assert!(v[i] <= v[j]);
        }
    }
}

#[test]
fn keeps_the_multiset_of_elements() {
    let original = vec![4, 2, 4, 1, 2, 4, -7, 0];
    let mut v = original.clone();
    quick_sort(&mut v);
    assert_eq!(v.len(), original.len());
    for x in &original {
        let before = original.iter().filter(|y| *y == x).count();
        let after = v.iter().filter(|y| *y == x).count();
        assert_eq!(before, after);
    }
}

#[test]
fn sorting_twice_changes_nothing_more() {
    let mut v = vec![6, 6, -1, 30, 2, 2, 9];
    quick_sort(&mut v);
    let once = v.clone();
    quick_sort(&mut v);
    assert_eq!(v, once);
}

#[test]
fn empty_input_stays_empty() {
    let mut v: Vec<i32> = vec![];
    quick_sort(&mut v);
    assert_eq!(v, Vec::<i32>::new());
}

#[test]
fn single_element_stays_put() {
    let mut v = vec![42];
    quick_sort(&mut v);
    assert_eq!(v, vec![42]);
}

#[test]
fn partition_splits_around_the_pivot() {
    let mut v = vec![9, 1, 8, 2, 7, 5];
    let pivot = v[v.len() - 1];
    let p = partition(&mut v, 0, 6);
    assert_eq!(v[p], pivot);
    for i in 0..p {
        assert!(v[i] < pivot);
    }
    for i in p + 1..v.len() {
        assert!(v[i] >= pivot);
    }
}

#[test]
fn partition_touches_only_its_range() {
    let mut v = vec![100, 3, 1, 2, -50];
    let p = partition(&mut v, 1, 4);
    assert_eq!(v[0], 100);
    assert_eq!(v[4], -50);
    assert!((1..4).contains(&p));
    assert_eq!(v[p], 2);
}

#[test]
fn dedup_collapses_adjacent_runs() {
    let mut v = vec![1, 1, 2, 2, 2, 4];
    dedup(&mut v);
    assert_eq!(v, vec![1, 2, 4]);
}

#[test]
fn dedup_only_sees_adjacent_equals() {
    let mut v = vec![1, 2, 1];
    dedup(&mut v);
    assert_eq!(v, vec![1, 2, 1]);
}

#[test]
fn reverse_flips_end_to_end() {
    let mut v = vec![1, 2, 3, 4];
    reverse(&mut v);
    assert_eq!(v, vec![4, 3, 2, 1]);
}

#[test]
fn sort_then_dedup_deduplicates_fully() {
    let mut v = vec![4, 2, 4, 1, 2];
    process(&mut v, true, false);
    assert_eq!(v, vec![1, 2, 4]);
}

#[test]
fn dedup_comes_before_reversal() {
    let mut v = vec![4, 2, 4, 1, 2];
    process(&mut v, true, true);
    assert_eq!(v, vec![4, 2, 1]);
}

#[test]
fn process_without_flags_only_sorts() {
    let mut v = vec![5, 3, 8, 1];
    process(&mut v, false, false);
    assert_eq!(v, vec![1, 3, 5, 8]);
}

#[test]
fn process_reverse_only_sorts_descending() {
    let mut v = vec![5, 3, 8, 1];
    process(&mut v, false, true);
    assert_eq!(v, vec![8, 5, 3, 1]);
}
