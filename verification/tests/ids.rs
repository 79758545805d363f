use open_coroutine::ids::IdGenerator;

#[test]
fn lib_test() {
    let key = "global";
    let mut ids = IdGenerator::new();
    assert_eq!(1, ids.next_id(key));
    assert_eq!(2, ids.next_id(key));
    assert_eq!(3, ids.next_id(key));
}

#[test]
fn categories_are_disjoint() {
    let mut ids = IdGenerator::new();
    assert_eq!(1, ids.next_id("coroutine"));
    assert_eq!(2, ids.next_id("coroutine"));
    assert_eq!(1, ids.next_id("scheduler"));
    assert_eq!(3, ids.next_id("coroutine"));
    assert_eq!(2, ids.next_id("scheduler"));
}
