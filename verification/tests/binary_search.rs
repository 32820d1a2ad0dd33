use algokit::algorithm::{binary_search_threshold, binary_search_trial};

#[test]
fn threshold_finds_the_integer_square_root() {
    assert_eq!(binary_search_threshold(0, 100, |x| x * x <= 50, 1), 7);
    assert_eq!(binary_search_threshold(0, 100, |x| x * x <= 49, 1), 7);
    assert_eq!(binary_search_threshold(0, 100, |x| x * x <= 48, 1), 6);
    assert_eq!(binary_search_threshold(0, 1 << 32, |x| x * x <= 1_000_000_007, 1), 31622);
}

#[test]
fn threshold_works_downwards() {
    assert_eq!(binary_search_threshold(100, 0, |x| x >= 37, 1), 37);
    assert_eq!(binary_search_threshold(100, -100, |x| x > -42, 1), -41);
    assert_eq!(binary_search_threshold(-10, 10, |x| x <= -3, 1), -3);
}

#[test]
fn threshold_stops_at_the_threshold() {
    let mut tested = Vec::new();
    let found = binary_search_threshold(
        0,
        100,
        |x| {
            tested.push(x);
            x <= 50
        },
        10,
    );
    assert_eq!(found, 50);
    assert_eq!(tested, vec![50, 75, 62, 56]);
}

#[test]
fn threshold_tests_nothing_when_close_enough() {
    let mut calls = 0;
    let found = binary_search_threshold(
        5,
        8,
        |_| {
            calls += 1;
            true
        },
        3,
    );
    assert_eq!(found, 5);
    assert_eq!(calls, 0);
    assert_eq!(binary_search_threshold(9, 9, |_| false, 1), 9);
    assert_eq!(binary_search_threshold(3, 4, |_| false, 1), 3);
}

#[test]
fn threshold_takes_the_lower_of_two_middles() {
    let mut tested = Vec::new();
    binary_search_threshold(
        0,
        5,
        |x| {
            tested.push(x);
            false
        },
        1,
    );
    assert_eq!(tested, vec![2, 1]);
    let mut tested = Vec::new();
    binary_search_threshold(
        5,
        0,
        |x| {
            tested.push(x);
            false
        },
        1,
    );
    assert_eq!(tested, vec![2, 3, 4]);
}

#[test]
fn threshold_spans_the_whole_range() {
    let limit = 1_000_000_000_000_000_000i64;
    assert_eq!(binary_search_threshold(0, i64::MAX, |x| x <= limit, 1), limit);
    assert_eq!(binary_search_threshold(i64::MAX, 0, |x| x > limit, 1), limit + 1);
    assert_eq!(binary_search_threshold(-1, i64::MIN, |x| x >= -limit, 1), -limit);
}

#[test]
fn trial_makes_that_many_steps() {
    let below_five = |x: i64| x < 5;
    assert_eq!(binary_search_trial(0, 16, below_five, 0), 0);
    assert_eq!(binary_search_trial(0, 16, below_five, 1), 0);
    assert_eq!(binary_search_trial(0, 16, below_five, 2), 4);
    assert_eq!(binary_search_trial(0, 16, below_five, 10), 4);
    let mut tested = Vec::new();
    let found = binary_search_trial(
        0,
        16,
        |x| {
            tested.push(x);
            x < 7
        },
        3,
    );
    assert_eq!(found, 6);
    assert_eq!(tested, vec![8, 4, 6]);
}

#[test]
fn trial_works_downwards() {
    assert_eq!(binary_search_trial(64, 0, |x| x >= 20, 6), 20);
    assert_eq!(binary_search_trial(64, 0, |x| x >= 20, 1), 32);
    assert_eq!(binary_search_trial(64, 0, |x| x >= 20, 2), 32);
    assert_eq!(binary_search_trial(64, 0, |x| x >= 20, 3), 24);
}

#[test]
fn trial_keeps_testing_when_the_two_have_met() {
    let mut tested = Vec::new();
    let found = binary_search_trial(
        0,
        2,
        |x| {
            tested.push(x);
            x < 1
        },
        4,
    );
    assert_eq!(found, 0);
    assert_eq!(tested, vec![1, 0, 0, 0]);
}
