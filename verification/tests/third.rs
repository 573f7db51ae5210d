use bitonic_sorter::third::{sort, sort_by};
use bitonic_sorter::SortError;
use bitonic_sorter::SortOrder::{Ascending, Descending};
use std::cmp::Ordering;

#[derive(Debug, PartialEq)]
struct Student {
    first_name: String,
    last_name: String,
    age: u8,
}

impl Student {
    fn new(first_name: &str, last_name: &str, age: u8) -> Self {
        Self {
            first_name: first_name.to_string(),
            last_name: last_name.to_string(),
            age,
        }
    }
}

#[test]
fn sort_students_by_age_ascending() {
    let s1 = Student::new("first", "name", 16);
    let s2 = Student::new("s2first", "s2last", 14);
    let s3 = Student::new("s3first", "s3last", 15);
    let s4 = Student::new("s4first", "s4last", 23);

    let mut x = vec![&s1, &s2, &s3, &s4];

    let expected = vec![&s2, &s3, &s1, &s4];

    assert_eq!(
        sort_by(&mut x, &|a, b| a.age.cmp(&b.age)),
        Ok(())
    );

    assert_eq!(x, expected);
}

#[test]
fn sort_students_by_name_ascending() {
    let s1 = Student::new("s1first", "s1last", 16);
    let s2 = Student::new("s2first", "s2last", 14);
    let s3 = Student::new("s3first", "s3last", 15);
    let s4 = Student::new("s4first", "s4last", 23);

    let mut x = vec![&s2, &s1, &s4, &s3];

    let expected = vec![&s1, &s2, &s3, &s4];

    assert_eq!(
        sort_by(&mut x, &|a, b|
            a.last_name.cmp(&b.last_name).then_with(|| a.first_name.cmp(&b.first_name))
        ),
        Ok(())
    );
    assert_eq!(x, expected);
}

#[test]
fn sort_students_by_last_name_then_first_name() {
    let s1 = Student::new("Zoe", "Adams", 30);
    let s2 = Student::new("Amy", "Brown", 31);
    let s3 = Student::new("Bob", "Adams", 32);
    let s4 = Student::new("Al", "Brown", 33);

    let mut x = vec![&s1, &s2, &s3, &s4];

    assert_eq!(
        sort_by(&mut x, &|a, b|
            a.last_name.cmp(&b.last_name).then_with(|| a.first_name.cmp(&b.first_name))
        ),
        Ok(())
    );
    assert_eq!(x, vec![&s3, &s1, &s4, &s2]);
}

#[test]
fn third_sort_u_32_ascending() {
    let mut x: Vec<u32> = vec![10, 30, 11, 20, 4, 330, 220, 4440, 10, 1, 444, 4423, 8236, 23, 324, 76];
    assert_eq!(sort(&mut x, &Ascending), Ok(()));
    assert_eq!(x, vec![1, 4, 10, 10, 11, 20, 23, 30, 76, 220, 324, 330, 444, 4423, 4440, 8236]);
}

#[test]
fn third_sort_u_32_descending() {
    let mut x: Vec<u32> = vec![10, 30, 11, 20, 4, 330, 21, 110];
    assert_eq!(sort(&mut x, &Descending), Ok(()));
    assert_eq!(x, vec![330, 110, 30, 21, 20, 11, 10, 4]);
}

#[test]
fn third_sort_str_both_ways() {
    let mut x = vec!["Rust", "is"];
    assert_eq!(sort(&mut x, &Ascending), Ok(()));
    assert_eq!(x, vec!["Rust", "is"]);
    assert_eq!(sort(&mut x, &Descending), Ok(()));
    assert_eq!(x, vec!["is", "Rust"]);
}

#[test]
fn third_sort_refuses_three_and_leaves_input() {
    let mut x = vec![10, 30, 11];
    assert_eq!(sort(&mut x, &Ascending), Err(SortError::InvalidLength(3)));
    assert_eq!(x, vec![10, 30, 11]);
}

#[test]
fn sort_by_refuses_other_lengths_and_leaves_input() {
    for n in [3usize, 5, 6, 7, 9, 12, 15, 17, 31, 33] {
        let mut x: Vec<usize> = (0..n).rev().collect();
        let before = x.clone();
        assert_eq!(sort_by(&mut x, &|a, b| a.cmp(b)), Err(SortError::InvalidLength(n)));
        assert_eq!(x, before);
    }
}

#[test]
fn sort_by_empty_and_single() {
    let mut empty: Vec<u8> = vec![];
    assert_eq!(sort_by(&mut empty, &|a, b| a.cmp(b)), Ok(()));
    assert_eq!(empty, Vec::<u8>::new());

    let mut single = vec![9u8];
    assert_eq!(sort_by(&mut single, &|a, b| b.cmp(a)), Ok(()));
    assert_eq!(single, vec![9]);
}

#[test]
fn sort_by_reversed_comparator_sorts_descending() {
    let mut x = vec![3, 9, 1, 7, 5, 5, 2, 8];
    assert_eq!(sort_by(&mut x, &|a: &i32, b: &i32| b.cmp(a)), Ok(()));
    assert_eq!(x, vec![9, 8, 7, 5, 5, 3, 2, 1]);
}

#[test]
fn sort_by_key_orders_by_key_and_keeps_every_record() {
    let mut x = vec![(3, 'a'), (1, 'b'), (2, 'c'), (1, 'd'), (3, 'e'), (2, 'f'), (1, 'g'), (2, 'h')];
    assert_eq!(sort_by(&mut x, &|a: &(i32, char), b: &(i32, char)| a.0.cmp(&b.0)), Ok(()));
    let keys: Vec<i32> = x.iter().map(|p| p.0).collect();
    assert_eq!(keys, vec![1, 1, 1, 2, 2, 2, 3, 3]);
    let mut tags: Vec<char> = x.iter().map(|p| p.1).collect();
    tags.sort();
    assert_eq!(tags, vec!['a', 'b', 'c', 'd', 'e', 'f', 'g', 'h']);
}

#[test]
fn sort_by_keeps_sorted_input_without_ties() {
    let mut x = vec![1, 2, 3, 5, 8, 13, 21, 34];
    assert_eq!(sort_by(&mut x, &|a: &u64, b: &u64| a.cmp(b)), Ok(()));
    assert_eq!(x, vec![1, 2, 3, 5, 8, 13, 21, 34]);
}

#[test]
fn sort_by_may_reorder_ties_of_sorted_input() {
    let mut x = vec![
        (1, 'a'), (1, 'b'), (1, 'c'), (1, 'd'), (1, 'e'), (2, 'f'), (2, 'g'), (2, 'h'),
    ];
    assert_eq!(sort_by(&mut x, &|a: &(i32, char), b: &(i32, char)| a.0.cmp(&b.0)), Ok(()));
    let keys: Vec<i32> = x.iter().map(|p| p.0).collect();
    assert_eq!(keys, vec![1, 1, 1, 1, 1, 2, 2, 2]);
    assert_eq!(
        x,
        vec![(1, 'a'), (1, 'b'), (1, 'c'), (1, 'd'), (1, 'e'), (2, 'g'), (2, 'h'), (2, 'f')]
    );
}

#[test]
fn sort_by_with_a_comparator_that_is_no_order_only_rearranges() {
    let mut x = vec![4, 1, 3, 2, 8, 5, 7, 6];
    assert_eq!(sort_by(&mut x, &|_: &i32, _: &i32| Ordering::Greater), Ok(()));
    x.sort();
    assert_eq!(x, vec![1, 2, 3, 4, 5, 6, 7, 8]);
}

#[test]
fn sort_by_every_arrangement_of_four() {
    let values = ["a", "b", "c", "d"];
    for a in 0..4 {
        for b in 0..4 {
            for c in 0..4 {
                for d in 0..4 {
                    let mut x = vec![values[a], values[b], values[c], values[d]];
                    let mut expected = x.clone();
                    expected.sort();
                    assert_eq!(sort_by(&mut x, &|p: &&str, q: &&str| p.cmp(q)), Ok(()));
                    assert_eq!(x, expected);
                }
            }
        }
    }
}
