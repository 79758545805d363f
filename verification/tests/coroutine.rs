use open_coroutine::coroutine::Coroutine;
use open_coroutine::coroutine::Status;
use open_coroutine::coroutine::UserFunction;
use open_coroutine::coroutine::resume_chain;
use open_coroutine::ids::IdGenerator;
use open_coroutine::pools::StackPoolRegistry;
use open_coroutine::system::SysConf;

fn test_sys() -> SysConf {
    SysConf::new(4096, 8 * 1024 * 1024)
}

#[derive(Clone, Copy)]
struct Echo;

impl UserFunction for Echo {
    fn invoke(&mut self, param: Option<usize>) -> Option<usize> {
        param
    }
}

#[derive(Clone, Copy)]
struct PrintNumber {
    n: usize,
}

impl UserFunction for PrintNumber {
    fn invoke(&mut self, _param: Option<usize>) -> Option<usize> {
        println!("{}", self.n);
        Some(self.n)
    }
}

#[test]
fn next() {
    let sys = test_sys();
    let mut registry = StackPoolRegistry::new(sys);
    let mut ids = IdGenerator::new();
    let mut head =
        Coroutine::new(&mut registry, &mut ids, 2048, PrintNumber { n: 1 }, None).unwrap();
    let mut middle =
        Coroutine::new(&mut registry, &mut ids, 2048, PrintNumber { n: 2 }, None).unwrap();
    let mut tail =
        Coroutine::new(&mut registry, &mut ids, 2048, PrintNumber { n: 3 }, None).unwrap();
    head.set_next(&middle);
    middle.set_next(&tail);

    tail.set_entrance(&head);
    let head_id = head.get_id();
    let mut slab = vec![head, middle, tail];
    resume_chain(&mut slab, head_id, 0);
}

#[test]
fn chain_runs_in_link_order() {
    let sys = test_sys();
    let mut registry = StackPoolRegistry::new(sys);
    let mut ids = IdGenerator::new();
    let mut head =
        Coroutine::new(&mut registry, &mut ids, 2048, PrintNumber { n: 1 }, None).unwrap();
    let mut middle =
        Coroutine::new(&mut registry, &mut ids, 2048, PrintNumber { n: 2 }, None).unwrap();
    let mut tail =
        Coroutine::new(&mut registry, &mut ids, 2048, PrintNumber { n: 3 }, None).unwrap();
    head.set_next(&middle);
    middle.set_next(&tail);
    tail.set_entrance(&head);
    let ids_expected = vec![head.get_id(), middle.get_id(), tail.get_id()];
    let mut slab = vec![head, middle, tail];
    let ran = resume_chain(&mut slab, ids_expected[0], 0);
    assert_eq!(ran, ids_expected);
    for c in &slab {
        assert_eq!(c.get_status(), Status::Finished);
    }
    assert_eq!(slab[0].get_result(), Some(1));
    assert_eq!(slab[1].get_result(), Some(2));
    assert_eq!(slab[2].get_result(), Some(3));
}

#[test]
fn chain_stops_before_a_sleeping_coroutine() {
    let sys = test_sys();
    let mut registry = StackPoolRegistry::new(sys);
    let mut ids = IdGenerator::new();
    let mut head =
        Coroutine::new(&mut registry, &mut ids, 2048, PrintNumber { n: 1 }, None).unwrap();
    let mut late =
        Coroutine::new(&mut registry, &mut ids, 2048, PrintNumber { n: 2 }, None).unwrap();
    late.set_execute_time(1_000);
    head.set_next(&late);
    let expected = vec![head.get_id()];
    let mut slab = vec![head, late];
    let ran = resume_chain(&mut slab, expected[0], 500);
    assert_eq!(ran, expected);
    assert_eq!(slab[0].get_status(), Status::Finished);
    assert_ne!(slab[1].get_status(), Status::Finished);
}

#[test]
fn resume_at_runs_only_when_due() {
    let sys = test_sys();
    let mut registry = StackPoolRegistry::new(sys);
    let mut ids = IdGenerator::new();
    let mut c = Coroutine::new(&mut registry, &mut ids, 2048, Echo, Some(42)).unwrap();
    c.set_execute_time(100);
    assert!(c.resume_at(99).is_none());
    assert_eq!(c.get_status(), Status::Created);
    let done = c.resume_at(100).unwrap();
    assert_eq!(done.get_status(), Status::Finished);
    assert_eq!(done.get_result(), Some(42));
    assert_eq!(c.get_result(), Some(42));
}

#[test]
fn exit_returns_stack_to_pool() {
    let sys = test_sys();
    let mut registry = StackPoolRegistry::new(sys);
    let mut ids = IdGenerator::new();
    let mut c = Coroutine::new(&mut registry, &mut ids, 2048, Echo, None).unwrap();
    {
        let pool = open_coroutine::pools::get_memory_pool(&registry, 2048).unwrap();
        assert_eq!(1, pool.using().len());
        assert_eq!(0, pool.available().len());
    }
    c.resume_at(0);
    c.exit(&mut registry);
    assert_eq!(c.get_status(), Status::Exited);
    let pool = open_coroutine::pools::get_memory_pool(&registry, 2048).unwrap();
    assert_eq!(0, pool.using().len());
    assert_eq!(1, pool.available().len());
}

#[test]
fn fresh_coroutine_fields() {
    let sys = test_sys();
    let mut registry = StackPoolRegistry::new(sys);
    let mut ids = IdGenerator::new();
    let c = Coroutine::new(&mut registry, &mut ids, 2048, Echo, Some(7)).unwrap();
    assert_eq!(c.get_id(), 1);
    assert_eq!(c.get_status(), Status::Created);
    assert_eq!(c.get_param(), Some(7));
    assert_eq!(c.get_result(), None);
    assert_eq!(c.get_execute_time(), 0);
    assert!(!c.has_next());
    assert_eq!(c.get_entrance(), None);
    assert_eq!(c.stack.len(), 4096);
}

#[test]
fn exited_stack_is_cached_and_reused() {
    let sys = test_sys();
    let mut registry = StackPoolRegistry::new(sys);
    let mut ids = IdGenerator::new();
    let mut c = Coroutine::new(&mut registry, &mut ids, 2048, Echo, None).unwrap();
    let first_stack = c.stack;
    c.resume_at(0);
    c.exit(&mut registry);
    let c2 = Coroutine::new(&mut registry, &mut ids, 2048, Echo, None).unwrap();
    assert_eq!(first_stack, c2.stack);
}
