use open_coroutine::hook;

#[test]
fn nanosleep_request_converts_timespec() {
    assert_eq!(hook::nanosleep_request_ns(0, 0), 0);
    assert_eq!(hook::nanosleep_request_ns(1, 0), 1_000_000_000);
    assert_eq!(hook::nanosleep_request_ns(2, 345), 2_000_000_345);
}

#[test]
fn nanosleep_remainder_zero_after_deadline() {
    assert_eq!(hook::nanosleep_remainder(1_000, 1_000), None);
    assert_eq!(hook::nanosleep_remainder(1_000, 2_000), None);
}

#[test]
fn nanosleep_remainder_splits_tail() {
    assert_eq!(hook::nanosleep_remainder(1_000, 400), Some((0, 600)));
    assert_eq!(hook::nanosleep_remainder(3_500_000_000, 1_000_000_000), Some((2, 500_000_000)));
}

#[test]
fn sleep_request_is_whole_seconds() {
    assert_eq!(hook::sleep_request(0), (0, 0));
    assert_eq!(hook::sleep_request(7), (7, 0));
}

#[test]
fn sleep_result_reports_residual_seconds() {
    assert_eq!(hook::sleep_result(0), 0);
    assert_eq!(hook::sleep_result(3), 3);
}

#[test]
fn usleep_request_splits_micros() {
    assert_eq!(hook::usleep_request(0), (0, 0));
    assert_eq!(hook::usleep_request(1_500_000), (1, 500_000_000));
    assert_eq!(hook::usleep_request(999_999), (0, 999_999_000));
}
