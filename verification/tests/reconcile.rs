use std::collections::VecDeque;

use cantal::tstamp::compare_timestamps;

fn ring(v: Vec<(u64, u32)>) -> VecDeque<(u64, u32)> {
    v.into_iter().collect()
}

#[test]
fn all_new() {
    assert_eq!(
        compare_timestamps(&vec![(130, 0), (120, 0), (110, 0)], &ring(vec![(30, 0), (20, 0), (10, 0)])),
        (3, 3)
    );
}

#[test]
fn touch() {
    assert_eq!(
        compare_timestamps(
            &vec![(50, 0), (40, 0), (30, 0)],
            &ring(vec![(30, 0), (20, 0), (10, 0), (0, 0)])
        ),
        (2, 3)
    );
}

#[test]
fn overlap() {
    assert_eq!(
        compare_timestamps(
            &vec![(40, 0), (30, 0), (20, 0)],
            &ring(vec![(30, 0), (20, 0), (10, 0), (0, 0)])
        ),
        (1, 3)
    );
}

#[test]
fn all_old() {
    assert_eq!(
        compare_timestamps(&vec![(30, 0), (20, 0), (10, 0)], &ring(vec![(130, 0), (120, 0), (110, 0)])),
        (0, 0)
    );
}

#[test]
fn middle() {
    assert_eq!(
        compare_timestamps(
            &vec![(40, 0), (30, 0), (25, 0)],
            &ring(vec![(30, 0), (20, 0), (10, 0), (0, 0)])
        ),
        (1, 2)
    );
}

#[test]
fn middle2() {
    assert_eq!(
        compare_timestamps(
            &vec![(40, 0), (35, 0), (25, 0)],
            &ring(vec![(30, 0), (20, 0), (10, 0), (0, 0)])
        ),
        (2, 2)
    );
}

#[test]
fn middle3() {
    assert_eq!(
        compare_timestamps(
            &vec![(50, 0), (40, 0), (35, 0), (20, 0)],
            &ring(vec![(30, 0), (20, 0), (10, 0), (0, 0)])
        ),
        (3, 3)
    );
}

#[test]
fn new_big() {
    assert_eq!(
        compare_timestamps(
            &vec![(50, 0), (40, 0), (30, 0), (20, 0), (10, 0)],
            &ring(vec![(30, 0), (20, 0)])
        ),
        (2, 4)
    );
}
