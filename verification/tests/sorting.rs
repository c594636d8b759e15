use lib::lcg::Lcg;
use lib::sorts::{
    binary_search, bubble_sort, heapsort, insertion_sort, is_sorted, quicksort, selection_sort,
    shuffled, N,
};

fn check(input: &[i32], reference: &[i32], sort: fn(&mut [i32])) {
    let mut work = input.to_vec();
    sort(&mut work);
    assert!(is_sorted(&work));
    assert_eq!(work, reference);
}

#[test]
fn all_algorithms_agree() {
    let base = shuffled();
    let mut reference = base.clone();
    insertion_sort(&mut reference);
    assert!(is_sorted(&reference));
    let ascending: Vec<i32> = (0..N as i32).collect();
    let descending: Vec<i32> = (0..N as i32).rev().collect();
    assert_eq!(reference, ascending);
    let algos: [fn(&mut [i32]); 5] = [bubble_sort, insertion_sort, selection_sort, quicksort, heapsort];
    for input in [&base, &ascending, &descending] {
        for sort in algos {
            check(input, &reference, sort);
        }
    }
}

#[test]
fn sorts_handle_duplicates_and_negatives() {
    let input = vec![5, -3, 5, 0, i32::MIN, i32::MAX, -3, 2];
    let mut expected = input.clone();
    expected.sort();
    let algos: [fn(&mut [i32]); 5] = [bubble_sort, insertion_sort, selection_sort, quicksort, heapsort];
    for sort in algos {
        check(&input, &expected, sort);
    }
    for sort in algos {
        let mut empty: Vec<i32> = Vec::new();
        sort(&mut empty);
        assert!(empty.is_empty());
        let mut one = vec![42];
        sort(&mut one);
        assert_eq!(one, vec![42]);
    }
}

#[test]
fn shuffled_is_a_permutation() {
    let data = shuffled();
    assert_eq!(data.len(), N);
    let mut seen = vec![false; N];
    for &v in &data {
        assert!(!seen[v as usize]);
        seen[v as usize] = true;
    }
    assert_ne!(data, (0..N as i32).collect::<Vec<i32>>());
}

#[test]
fn shuffled_matches_generator() {
    // The first swap exchanges the last element with position `next % N`.
    let mut rng = Lcg(0x1234_5678);
    let j = (rng.next() as usize) % N;
    let data = shuffled();
    // Position j receives 127 unless a later swap moved it; the last slot
    // is never touched again, so it holds the value first swapped into it.
    assert_eq!(data[N - 1], j as i32);
}

#[test]
fn is_sorted_cases() {
    assert!(is_sorted(&[]));
    assert!(is_sorted(&[1]));
    assert!(is_sorted(&[1, 1, 2]));
    assert!(!is_sorted(&[2, 1]));
    assert!(!is_sorted(&[1, 3, 2, 4]));
}

#[test]
fn binary_search_present_and_absent() {
    let reference: Vec<i32> = (0..N as i32).collect();
    assert_eq!(binary_search(&reference, 0), Some(0));
    assert_eq!(binary_search(&reference, (N - 1) as i32), Some(N - 1));
    assert_eq!(binary_search(&reference, -1), None);
    assert_eq!(binary_search(&reference, N as i32), None);
    assert_eq!(binary_search(&[], 3), None);
    assert_eq!(binary_search(&[1, 3, 5], 4), None);
}

#[test]
fn lcg_steps() {
    let mut rng = Lcg(0);
    assert_eq!(rng.next(), 12_345);
    assert_eq!(rng.0, 12_345);
    let mut rng = Lcg(1);
    assert_eq!(rng.next(), 1_103_515_245u32.wrapping_add(12_345));
    let mut rng = Lcg(u32::MAX);
    let expected = u32::MAX.wrapping_mul(1_103_515_245).wrapping_add(12_345);
    assert_eq!(rng.next(), expected);
}
