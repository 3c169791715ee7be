use advent_puzzles::adapters::{count_arrangements, count_intervals};
use advent_puzzles::cipher::{find_invalid_num, find_max, find_min, find_sequence, is_valid};
use advent_puzzles::expense::{find_pair, find_triple};

#[test]
fn finds_the_pair_that_adds_up() {
    let mut v = vec![1721, 979, 366, 299, 675, 1456];
    v.sort_unstable();
    assert_eq!(find_pair(&v, 2020), Some((299, 1721)));
    assert_eq!(find_pair(&v, 2021), None);
    assert_eq!(find_pair(&[], 0), None);
    assert_eq!(find_pair(&[1010], 2020), None);
    assert_eq!(find_pair(&[1010, 1010], 2020), Some((1010, 1010)));
    assert_eq!(find_pair(&[-5, 0, 5], 0), Some((-5, 5)));
}

#[test]
fn finds_the_triple_that_adds_up() {
    let mut v = vec![1721, 979, 366, 299, 675, 1456];
    v.sort_unstable();
    assert_eq!(find_triple(&v, 2020), Some((366, 675, 979)));
    assert_eq!(find_triple(&v, 1), None);
    assert_eq!(find_triple(&[1, 2], 3), None);
    assert_eq!(find_triple(&[1, 1, 1], 3), Some((1, 1, 1)));
}

#[test]
fn finds_the_least_and_the_greatest() {
    assert_eq!(find_min(&[15, 25, 47, 40]), 15);
    assert_eq!(find_max(&[15, 25, 47, 40]), 47);
    assert_eq!(find_min(&[]), u64::MAX);
    assert_eq!(find_max(&[]), 0);
}

#[test]
fn tells_sums_of_two_earlier_numbers() {
    let preamble: Vec<u64> = (1..=25).collect();
    assert!(is_valid(&preamble, 26));
    assert!(is_valid(&preamble, 49));
    assert!(!is_valid(&preamble, 100));
    assert!(!is_valid(&preamble, 50));
    // The order counts: a number as great as the sum does not begin a pair.
    assert!(is_valid(&[0, 7], 7));
    assert!(!is_valid(&[7, 0], 7));
    // Twice the same number is no pair.
    assert!(!is_valid(&[5, 5], 10));
}

#[test]
fn finds_the_number_that_is_no_sum() {
    let mut numbers: Vec<u64> = (1..=25).collect();
    numbers.push(26);
    numbers.push(49);
    numbers.push(100);
    numbers.push(50);
    assert_eq!(find_invalid_num(&numbers), Some(100));
    assert_eq!(find_invalid_num(&numbers[..27]), None);
    assert_eq!(find_invalid_num(&numbers[..3]), None);
}

#[test]
fn finds_the_run_that_adds_up() {
    let numbers = [
        35, 20, 15, 25, 47, 40, 62, 55, 65, 95, 102, 117, 150, 182, 127, 219, 299, 277, 309, 576,
    ];
    assert_eq!(find_sequence(&numbers, 127), Some((2, 5)));
    assert_eq!(find_sequence(&numbers, 1), None);
    assert_eq!(find_sequence(&[5, 0], 5), None);
    assert_eq!(find_sequence(&[2, 3], 5), Some((0, 1)));
}

#[test]
fn counts_steps_and_arrangements() {
    let mut small = vec![16, 10, 15, 5, 1, 11, 7, 19, 6, 12, 4];
    small.sort_unstable();
    assert_eq!(count_intervals(&small), (7, 5));
    assert_eq!(count_arrangements(&small), 8);
    let mut large = vec![
        28, 33, 18, 42, 31, 14, 46, 20, 48, 47, 24, 23, 49, 45, 19, 38, 39, 11, 1, 32, 25, 35, 8,
        17, 7, 9, 4, 2, 34, 10, 3,
    ];
    large.sort_unstable();
    assert_eq!(count_intervals(&large), (22, 10));
    assert_eq!(count_arrangements(&large), 19208);
    assert_eq!(count_arrangements(&[1, 2, 5, 6, 7, 8, 9, 12, 15, 18]), 14);
    assert_eq!(count_arrangements(&[]), 1);
    assert_eq!(count_arrangements(&[4]), 0);
    assert_eq!(count_intervals(&[]), (0, 1));
}

use advent_puzzles::adapters::try_count_arrangements;

#[test]
fn counts_beyond_the_range_are_told() {
    assert_eq!(try_count_arrangements(&[1, 2, 5, 6, 7, 8, 9, 12, 15, 18]), Some(14));
    assert_eq!(try_count_arrangements(&[]), Some(1));
    // A difference that leaves the range of i32.
    assert_eq!(try_count_arrangements(&[-1, i32::MAX]), None);
    assert_eq!(try_count_arrangements(&[i32::MAX]), Some(0));
    // More ways than a usize counts.
    let row: Vec<i32> = (1..=200).collect();
    assert_eq!(try_count_arrangements(&row), None);
    let short: Vec<i32> = (1..=10).collect();
    assert_eq!(try_count_arrangements(&short), Some(274));
}

#[test]
fn finds_entries_at_the_ends_of_the_range() {
    let v = [i32::MIN, -7, 0, 5, i32::MAX];
    assert_eq!(find_pair(&v, -1), Some((i32::MIN, i32::MAX)));
    assert_eq!(find_pair(&v, i32::MAX), Some((0, i32::MAX)));
    assert_eq!(find_pair(&v, i32::MIN), Some((i32::MIN, 0)));
    // The partner would lie beyond the range of the entries.
    assert_eq!(find_pair(&[i32::MIN, 5], i32::MAX), None);
    assert_eq!(find_pair(&[-5, i32::MAX], i32::MIN), None);
    assert_eq!(find_triple(&v, -1), Some((i32::MIN, 0, i32::MAX)));
    assert_eq!(find_triple(&v, i32::MAX), None);
    assert_eq!(find_triple(&v, i32::MIN), None);
    assert_eq!(find_triple(&[i32::MIN, i32::MIN, i32::MAX, i32::MAX], i32::MAX), None);
    assert_eq!(
        find_triple(&[i32::MIN, i32::MAX - 1, i32::MAX, i32::MAX], i32::MAX - 1),
        Some((i32::MIN, i32::MAX, i32::MAX))
    );
}
