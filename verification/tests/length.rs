use bitonic_sorter::length::is_valid_length;
use bitonic_sorter::slices::exchange;

#[test]
fn zero_and_one_are_valid_lengths() {
    assert!(is_valid_length(0));
    assert!(is_valid_length(1));
}

#[test]
fn powers_of_two_are_valid_lengths() {
    for k in 0..usize::BITS {
        assert!(is_valid_length(1usize << k));
    }
}

#[test]
fn other_lengths_are_not_valid() {
    for n in [3usize, 5, 6, 7, 9, 10, 12, 15, 17, 24, 100, 1023, 1025, usize::MAX] {
        assert!(!is_valid_length(n));
    }
}

#[test]
fn valid_lengths_below_a_thousand() {
    let valid: Vec<usize> = (0..1000).filter(|&n| is_valid_length(n)).collect();
    assert_eq!(valid, vec![0, 1, 2, 4, 8, 16, 32, 64, 128, 256, 512]);
}

#[test]
fn exchange_swaps_two_positions() {
    let mut x = vec!['a', 'b', 'c', 'd'];
    exchange(&mut x, 0, 3);
    assert_eq!(x, vec!['d', 'b', 'c', 'a']);
    exchange(&mut x, 1, 1);
    assert_eq!(x, vec!['d', 'b', 'c', 'a']);
}
