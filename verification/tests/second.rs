use bitonic_sorter::second::sort;
use bitonic_sorter::SortError;
use bitonic_sorter::SortOrder::{Ascending, Descending};

#[test]
fn second_sort_u_32_ascending() {
    let mut x: Vec<u32> = vec![10, 30, 11, 20, 4, 330, 220, 4440, 10, 1, 444, 4423, 8236, 23, 324, 76];

    assert_eq!(sort(&mut x, &Ascending), Ok(()));

    assert_eq!(x, vec![1, 4, 10, 10, 11, 20, 23, 30, 76, 220, 324, 330, 444, 4423, 4440, 8236]);
}

#[test]
fn second_sort_u_32_descending() {
    let mut x: Vec<u32> = vec![10, 30, 11, 20, 4, 330, 21, 110];

    assert_eq!(sort(&mut x, &Descending), Ok(()));

    assert_eq!(x, vec![330, 110, 30, 21, 20, 11, 10, 4]);
}

#[test]
fn sort_str_ascending() {
    let mut x = vec!["Rust", "is"];

    assert_eq!(sort(&mut x, &Ascending), Ok(()));

    assert_eq!(x, vec!["Rust", "is"]);
}

#[test]
fn sort_str_descending() {
    let mut x = vec!["Rust", "is"];

    assert_eq!(sort(&mut x, &Descending), Ok(()));

    assert_eq!(x, vec!["is", "Rust"]);
}

#[test]
fn sort_to_fail() {
    let mut x = vec![10, 30, 11];
    assert!(sort(&mut x, &Ascending).is_err())
}

#[test]
fn second_sort_refuses_three_and_leaves_input() {
    let mut x = vec![10, 30, 11];
    assert_eq!(sort(&mut x, &Ascending), Err(SortError::InvalidLength(3)));
    assert_eq!(x, vec![10, 30, 11]);

    let mut y = vec![10, 30, 11];
    assert_eq!(sort(&mut y, &Descending), Err(SortError::InvalidLength(3)));
    assert_eq!(y, vec![10, 30, 11]);
}

#[test]
fn second_sort_refuses_every_other_length_up_to_forty() {
    for n in 0usize..40 {
        let mut x: Vec<u32> = (0..n as u32).rev().collect();
        let before = x.clone();
        let result = sort(&mut x, &Ascending);
        if n == 0 || n.is_power_of_two() {
            assert_eq!(result, Ok(()));
            let mut expected = before.clone();
            expected.sort();
            assert_eq!(x, expected);
        } else {
            assert_eq!(result, Err(SortError::InvalidLength(n)));
            assert_eq!(x, before);
        }
    }
}

#[test]
fn second_sort_empty_and_single() {
    let mut empty: Vec<i64> = vec![];
    assert_eq!(sort(&mut empty, &Ascending), Ok(()));
    assert_eq!(empty, Vec::<i64>::new());

    let mut single = vec![-3i64];
    assert_eq!(sort(&mut single, &Descending), Ok(()));
    assert_eq!(single, vec![-3]);
}

#[test]
fn second_sort_keeps_sorted_input() {
    let mut x = vec![-5i32, -1, 0, 0, 2, 9, 9, 40];
    assert_eq!(sort(&mut x, &Ascending), Ok(()));
    assert_eq!(x, vec![-5, -1, 0, 0, 2, 9, 9, 40]);

    let mut y = vec!['z', 'q', 'b', 'a'];
    assert_eq!(sort(&mut y, &Descending), Ok(()));
    assert_eq!(y, vec!['z', 'q', 'b', 'a']);
}

#[test]
fn second_sort_strings() {
    let mut x = vec![
        String::from("pear"),
        String::from("apple"),
        String::from("fig"),
        String::from("Apple"),
    ];
    assert_eq!(sort(&mut x, &Ascending), Ok(()));
    assert_eq!(x, vec!["Apple", "apple", "fig", "pear"]);
}

#[test]
fn second_sort_pairs_in_lexical_order() {
    let mut x = vec![(2, 'b'), (1, 'z'), (2, 'a'), (1, 'a')];
    assert_eq!(sort(&mut x, &Ascending), Ok(()));
    assert_eq!(x, vec![(1, 'a'), (1, 'z'), (2, 'a'), (2, 'b')]);
    assert_eq!(sort(&mut x, &Descending), Ok(()));
    assert_eq!(x, vec![(2, 'b'), (2, 'a'), (1, 'z'), (1, 'a')]);
}
