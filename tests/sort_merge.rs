use apue::coordinator::{run_sort, sort_partitions};
use apue::error::SortError;
use apue::merge::merge;
use apue::plan::{plan, Partition};
use apue::sort::{cmp, sort_range};

fn p(start: usize, len: usize) -> Partition {
    Partition { start, len }
}

#[test]
fn two_workers_scenario() {
    let input: Vec<i64> = vec![5, 3, 8, 1, 9, 2, 7, 4];
    let parts = plan(input.len(), 2).unwrap();
    assert_eq!(parts, vec![p(0, 4), p(4, 4)]);
    let mut buf = input.clone();
    sort_range(&mut buf, 0, 4);
    assert_eq!(&buf[0..4], &[1, 3, 5, 8]);
    sort_range(&mut buf, 4, 4);
    assert_eq!(&buf[4..8], &[2, 4, 7, 9]);
    assert_eq!(merge(&buf, &parts), vec![1, 2, 3, 4, 5, 7, 8, 9]);
    assert_eq!(run_sort(&input, 2), Ok(vec![1, 2, 3, 4, 5, 7, 8, 9]));
}

#[test]
fn single_worker_scenario() {
    let input: Vec<i64> = vec![3, 1, 2];
    let parts = plan(3, 1).unwrap();
    assert_eq!(parts, vec![p(0, 3)]);
    let mut buf = input.clone();
    sort_partitions(&mut buf, &parts);
    assert_eq!(buf, vec![1, 2, 3]);
    assert_eq!(merge(&buf, &parts), vec![1, 2, 3]);
    assert_eq!(run_sort(&input, 1), Ok(vec![1, 2, 3]));
}

#[test]
fn zero_workers_rejected() {
    assert_eq!(plan(8, 0), Err(SortError::InvalidConfiguration));
    assert_eq!(run_sort(&vec![1, 2, 3], 0), Err(SortError::InvalidConfiguration));
}

#[test]
fn more_workers_than_elements_rejected() {
    assert_eq!(plan(3, 4), Err(SortError::InvalidConfiguration));
    assert_eq!(plan(0, 1), Err(SortError::InvalidConfiguration));
    assert_eq!(run_sort(&Vec::new(), 1), Err(SortError::InvalidConfiguration));
}

#[test]
fn remainder_goes_to_last_partition() {
    assert_eq!(plan(10, 3).unwrap(), vec![p(0, 3), p(3, 3), p(6, 4)]);
    assert_eq!(plan(7, 7).unwrap(), (0..7).map(|i| p(i, 1)).collect::<Vec<_>>());
    assert_eq!(plan(5, 2).unwrap(), vec![p(0, 2), p(2, 3)]);
}

#[test]
fn plan_covers_without_gaps() {
    for total in 1..40usize {
        for workers in 1..=total {
            let parts = plan(total, workers).unwrap();
            assert_eq!(parts.len(), workers);
            let mut next = 0;
            for q in &parts {
                assert_eq!(q.start, next);
                assert!(q.len >= 1);
                next = q.start + q.len;
            }
            assert_eq!(next, total);
        }
    }
}

#[test]
fn cmp_three_way() {
    assert_eq!(cmp(1, 1), 0);
    assert_eq!(cmp(-5, 3), -1);
    assert_eq!(cmp(i64::MAX, i64::MIN), 1);
}

#[test]
fn sort_range_touches_only_its_range() {
    let mut buf: Vec<i64> = vec![9, 8, 7, 6, 5, 4];
    sort_range(&mut buf, 1, 3);
    assert_eq!(buf, vec![9, 6, 7, 8, 5, 4]);
    sort_range(&mut buf, 2, 0);
    assert_eq!(buf, vec![9, 6, 7, 8, 5, 4]);
}

#[test]
fn merge_with_duplicates_and_extremes() {
    let buf: Vec<i64> = vec![i64::MIN, 2, i64::MAX, i64::MAX, 2, 2, i64::MIN, 0];
    let parts = vec![p(0, 3), p(3, 1), p(4, 2), p(6, 2)];
    let mut sorted = buf.clone();
    sort_partitions(&mut sorted, &parts);
    assert_eq!(
        merge(&sorted, &parts),
        vec![i64::MIN, i64::MIN, 0, 2, 2, 2, i64::MAX, i64::MAX]
    );
}

#[test]
fn merge_all_maximum_values() {
    let buf: Vec<i64> = vec![i64::MAX; 6];
    let parts = plan(6, 3).unwrap();
    assert_eq!(merge(&buf, &parts), vec![i64::MAX; 6]);
}

#[test]
fn merge_with_empty_partitions() {
    let buf: Vec<i64> = vec![4, 1, 3];
    let parts = vec![p(0, 0), p(0, 1), p(1, 0), p(1, 2), p(3, 0)];
    assert_eq!(merge(&buf, &parts), vec![1, 3, 4]);
}

#[test]
fn merge_of_sorted_buffer_is_identity() {
    let buf: Vec<i64> = vec![-3, -1, 0, 0, 2, 5, 5, 9];
    let parts = plan(8, 3).unwrap();
    assert_eq!(merge(&buf, &parts), buf);
}

#[test]
fn run_sort_is_sorted_permutation() {
    let mut seed: u64 = 12345;
    let mut input: Vec<i64> = Vec::new();
    for _ in 0..200 {
        seed = seed.wrapping_mul(6364136223846793005).wrapping_add(1442695040888963407);
        input.push((seed >> 40) as i64 - 8_000_000);
    }
    let mut expected = input.clone();
    expected.sort();
    for workers in [1usize, 2, 3, 7, 8, 199, 200] {
        assert_eq!(run_sort(&input, workers), Ok(expected.clone()));
    }
}

#[test]
fn sort_range_long_range() {
    let mut buf: Vec<i64> = (0..100).map(|i| (i * 37 % 101) as i64 - 50).collect();
    let before = buf.clone();
    sort_range(&mut buf, 10, 80);
    let mut expected = before[10..90].to_vec();
    expected.sort();
    assert_eq!(&buf[10..90], &expected[..]);
    assert_eq!(&buf[..10], &before[..10]);
    assert_eq!(&buf[90..], &before[90..]);
}
