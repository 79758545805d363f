use open_coroutine::timer;
use open_coroutine::timer::TimerList;

#[test]
fn now() {
    println!("{}", timer::now());
}

#[test]
fn timer_list() {
    let mut list: TimerList<String> = TimerList::new();
    assert_eq!(list.len(), 0);
    list.insert(1, String::from("data can be everything"));
    assert_eq!(list.len(), 1);

    let mut entry = list.pop_front().unwrap();
    assert_eq!(entry.len(), 1);
    assert!(entry.pop_front().is_some());
}

#[test]
fn entries_sort_by_time() {
    let mut list: TimerList<u64> = TimerList::new();
    list.insert(5, 50);
    list.insert(3, 30);
    list.insert(5, 51);
    list.insert(9, 90);
    assert_eq!(list.len(), 3);
    let mut entry = list.pop_front().unwrap();
    assert_eq!(entry.get_time(), 3);
    assert_eq!(entry.pop_front(), Some(30));
    let mut entry = list.pop_front().unwrap();
    assert_eq!(entry.get_time(), 5);
    assert_eq!(entry.len(), 2);
    assert_eq!(entry.pop_front(), Some(50));
    assert_eq!(entry.pop_front(), Some(51));
    let entry = list.pop_front().unwrap();
    assert_eq!(entry.get_time(), 9);
    assert!(list.pop_front().is_none());
}

#[test]
fn dur_to_ns_exact() {
    assert_eq!(timer::dur_to_ns(0, 0), 0);
    assert_eq!(timer::dur_to_ns(1, 500), 1_000_000_500);
    assert_eq!(timer::dur_to_ns(2, 0), 2_000_000_000);
}

#[test]
fn dur_to_ns_saturates() {
    assert_eq!(timer::dur_to_ns(u64::MAX, 0), u64::MAX);
    assert_eq!(timer::dur_to_ns(u64::MAX / 1_000_000_000 + 1, 999_999_999), u64::MAX);
}

#[test]
fn timeout_time_adds_interval() {
    assert_eq!(timer::get_timeout_time_at(100, 0, 50), 150);
    assert_eq!(timer::get_timeout_time_at(1_000, 2, 5), 2_000_001_005);
    assert_eq!(timer::get_timeout_time_at(u64::MAX - 10, 0, 50), u64::MAX);
}

#[test]
fn clock_never_runs_backwards() {
    let mut clock = timer::Clock::new();
    let r1 = clock.now();
    let r2 = clock.now();
    let r3 = clock.now();
    assert!(r1 <= r2);
    assert!(r2 <= r3);
}
