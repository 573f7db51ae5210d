use bitonic_sorter::first::sort;

#[test]
fn first_sort_u_32_ascending() {
    let mut x = vec![10, 30, 11, 20, 4, 330, 220, 4440, 10, 1, 444, 4423, 8236, 23, 324, 76];

    sort(&mut x, true);

    assert_eq!(x, vec![1, 4, 10, 10, 11, 20, 23, 30, 76, 220, 324, 330, 444, 4423, 4440, 8236]);
}

#[test]
fn first_sort_u_32_descending() {
    let mut x = vec![10, 30, 11, 20, 4, 330, 21, 110];

    sort(&mut x, false);

    assert_eq!(x, vec![330, 110, 30, 21, 20, 11, 10, 4]);
}

#[test]
fn sort_u32_descendingorg() {
    let mut x = vec![10, 30, 11, 20, 4, 330, 21, 110];
    sort(&mut x, false);
    assert_eq!(x, vec![330, 110, 30, 21, 20, 11, 10, 4]);
}

#[test]
fn first_sort_empty_and_single() {
    let mut empty: Vec<u32> = vec![];
    sort(&mut empty, true);
    assert_eq!(empty, Vec::<u32>::new());

    let mut single = vec![7];
    sort(&mut single, false);
    assert_eq!(single, vec![7]);
}

#[test]
fn first_sort_pair() {
    let mut x = vec![2, 1];
    sort(&mut x, true);
    assert_eq!(x, vec![1, 2]);

    let mut y = vec![1, 2];
    sort(&mut y, false);
    assert_eq!(y, vec![2, 1]);
}

#[test]
fn first_sort_keeps_sorted_input() {
    let mut up = vec![1, 2, 2, 3, 5, 8, 13, 21];
    sort(&mut up, true);
    assert_eq!(up, vec![1, 2, 2, 3, 5, 8, 13, 21]);

    let mut down = vec![21, 13, 8, 5];
    sort(&mut down, false);
    assert_eq!(down, vec![21, 13, 8, 5]);
}

#[test]
fn first_sort_with_repeats() {
    let mut x = vec![3, 3, 1, 3, 1, 1, 3, 1];
    sort(&mut x, true);
    assert_eq!(x, vec![1, 1, 1, 1, 3, 3, 3, 3]);
}

#[test]
fn first_sort_extremes() {
    let mut x = vec![u32::MAX, 0, u32::MAX, 0];
    sort(&mut x, true);
    assert_eq!(x, vec![0, 0, u32::MAX, u32::MAX]);
}

#[test]
fn first_sort_only_rearranges_other_lengths() {
    let mut x = vec![5, 4, 3, 2, 1];
    sort(&mut x, true);
    let mut seen = x.clone();
    seen.sort();
    assert_eq!(seen, vec![1, 2, 3, 4, 5]);

    let mut y = vec![9, 7, 8];
    sort(&mut y, false);
    let mut seen = y.clone();
    seen.sort();
    assert_eq!(seen, vec![7, 8, 9]);
}

#[test]
fn first_sort_of_five_sorted_elements_is_not_sorted() {
    let mut x = vec![1, 2, 3, 4, 5];
    sort(&mut x, true);
    assert_eq!(x, vec![1, 2, 4, 3, 5]);
}

#[test]
fn first_sort_every_arrangement_of_four() {
    let values = [1u32, 2, 3, 4];
    for a in 0..4 {
        for b in 0..4 {
            for c in 0..4 {
                for d in 0..4 {
                    let mut x = vec![values[a], values[b], values[c], values[d]];
                    let mut expected = x.clone();
                    expected.sort();
                    sort(&mut x, true);
                    assert_eq!(x, expected);

                    let mut y = vec![values[a], values[b], values[c], values[d]];
                    expected.reverse();
                    sort(&mut y, false);
                    assert_eq!(y, expected);
                }
            }
        }
    }
}

#[test]
fn first_sort_every_zero_one_input_of_sixteen() {
    for bits in 0u32..(1 << 16) {
        let mut x: Vec<u32> = (0..16).map(|i| (bits >> i) & 1).collect();
        let ones = x.iter().filter(|&&v| v == 1).count();
        sort(&mut x, true);
        let mut expected = vec![0u32; 16 - ones];
        expected.extend(vec![1u32; ones]);
        assert_eq!(x, expected);
    }
}
