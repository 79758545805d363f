use open_coroutine::coroutine::Coroutine;
use open_coroutine::coroutine::UserFunction;
use open_coroutine::ids::IdGenerator;
use open_coroutine::pools::StackPoolRegistry;
use open_coroutine::scheduler::Scheduler;
use open_coroutine::system::SysConf;
use open_coroutine::timer;

fn test_sys() -> SysConf {
    SysConf::new(4096, 8 * 1024 * 1024)
}

#[derive(Clone, Copy)]
struct EchoPrint {
    label: usize,
    env: usize,
}

impl UserFunction for EchoPrint {
    fn invoke(&mut self, param: Option<usize>) -> Option<usize> {
        match param {
            Some(param) => {
                println!("env {} coroutine{} {}", self.env, self.label, param);
            }
            None => {
                println!("env {} coroutine{} no param", self.env, self.label);
            }
        }
        param
    }
}

fn wait_millis(millis: u64) {
    let deadline = timer::get_timeout_time(0, (millis * 1_000_000) as u32);
    while timer::now() < deadline {}
}

#[test]
fn simple() {
    let x = 1;
    let y = 2;
    let sys = test_sys();
    let mut registry = StackPoolRegistry::new(sys);
    let mut ids = IdGenerator::new();
    let mut scheduler: Scheduler<EchoPrint> = Scheduler::new(&mut ids);
    scheduler.execute(
        Coroutine::new(&mut registry, &mut ids, 2048, EchoPrint { label: 1, env: x }, Some(1))
            .unwrap(),
    );
    scheduler.execute(
        Coroutine::new(&mut registry, &mut ids, 2048, EchoPrint { label: 2, env: y }, Some(2))
            .unwrap(),
    );
    scheduler.try_schedule(&mut registry);
}

#[test]
fn scheduler_test() {
    let sys = test_sys();
    let mut registry = StackPoolRegistry::new(sys);
    let mut ids = IdGenerator::new();
    let mut scheduler: Scheduler<EchoPrint> = Scheduler::new(&mut ids);
    let coroutine =
        Coroutine::new(&mut registry, &mut ids, 2048, EchoPrint { label: 1, env: 0 }, Some(1))
            .unwrap();
    scheduler.delay(0, 500_000_000, coroutine);
    assert_eq!(0, scheduler.try_schedule(&mut registry).len());
    assert_eq!(0, scheduler.get_ready().len());
    assert_eq!(1, scheduler.get_suspend().len());
    let entry = scheduler.get_suspend().front().unwrap();
    assert_eq!(1, entry.len());

    scheduler.execute(
        Coroutine::new(&mut registry, &mut ids, 2048, EchoPrint { label: 2, env: 0 }, Some(2))
            .unwrap(),
    );
    assert_eq!(1, scheduler.try_schedule(&mut registry).len());

    wait_millis(501);
    assert_eq!(1, scheduler.try_schedule(&mut registry).len());
    assert_eq!(0, scheduler.get_ready().len());
    assert_eq!(0, scheduler.get_suspend().len());
}

#[test]
fn delay() {
    let sys = test_sys();
    let mut registry = StackPoolRegistry::new(sys);
    let mut ids = IdGenerator::new();
    let mut scheduler: Scheduler<EchoPrint> = Scheduler::new(&mut ids);
    let mut coroutine =
        Coroutine::new(&mut registry, &mut ids, 2048, EchoPrint { label: 1, env: 0 }, None)
            .unwrap();
    coroutine.set_delay(0, 500_000_000);
    scheduler.execute(coroutine);
    assert_eq!(0, scheduler.try_schedule(&mut registry).len());
}

#[test]
fn lib_delay() {
    let sys = test_sys();
    let mut registry = StackPoolRegistry::new(sys);
    let mut ids = IdGenerator::new();
    let mut scheduler: Scheduler<EchoPrint> = Scheduler::new(&mut ids);
    let mut coroutine =
        Coroutine::new(&mut registry, &mut ids, 2048, EchoPrint { label: 1, env: 0 }, None)
            .unwrap();
    coroutine.set_delay(0, 500_000_000);
    scheduler.execute(coroutine);
    assert_eq!(0, scheduler.try_schedule(&mut registry).len());
}

#[test]
fn try_schedule() {
    let sys = test_sys();
    let mut registry = StackPoolRegistry::new(sys);
    let mut ids = IdGenerator::new();
    let mut scheduler: Scheduler<EchoPrint> = Scheduler::new(&mut ids);
    scheduler.delay(
        0,
        500_000_000,
        Coroutine::new(&mut registry, &mut ids, 2048, EchoPrint { label: 1, env: 0 }, None)
            .unwrap(),
    );
    assert_eq!(0, scheduler.try_schedule(&mut registry).len());
}

#[test]
fn lib_try_schedule() {
    let sys = test_sys();
    let mut registry = StackPoolRegistry::new(sys);
    let mut ids = IdGenerator::new();
    let mut scheduler: Scheduler<EchoPrint> = Scheduler::new(&mut ids);
    scheduler.delay(
        0,
        500_000_000,
        Coroutine::new(&mut registry, &mut ids, 2048, EchoPrint { label: 1, env: 0 }, None)
            .unwrap(),
    );
    assert_eq!(0, scheduler.try_schedule(&mut registry).len());
}

#[test]
fn basic_echo() {
    let sys = test_sys();
    let mut registry = StackPoolRegistry::new(sys);
    let mut ids = IdGenerator::new();
    let mut scheduler: Scheduler<EchoPrint> = Scheduler::new(&mut ids);
    let c = Coroutine::new(&mut registry, &mut ids, 2048, EchoPrint { label: 1, env: 0 }, Some(42))
        .unwrap();
    scheduler.submit_at(0, c);
    let finished = scheduler.try_schedule_at(&mut registry, 0);
    assert_eq!(1, finished.len());
    assert_eq!(Some(42), finished[0].get_result());
    assert_eq!(0, scheduler.get_ready().len());
    assert_eq!(0, scheduler.get_suspend().len());
}

#[test]
fn delayed_release() {
    let sys = test_sys();
    let mut registry = StackPoolRegistry::new(sys);
    let mut ids = IdGenerator::new();
    let mut scheduler: Scheduler<EchoPrint> = Scheduler::new(&mut ids);
    let mut c =
        Coroutine::new(&mut registry, &mut ids, 2048, EchoPrint { label: 1, env: 0 }, None)
            .unwrap();
    c.set_delay(0, 500_000_000);
    scheduler.submit(c);
    assert_eq!(0, scheduler.try_schedule(&mut registry).len());
    assert_eq!(0, scheduler.get_ready().len());
    assert_eq!(1, scheduler.get_suspend().len());
    wait_millis(501);
    assert_eq!(1, scheduler.try_schedule(&mut registry).len());
}

#[test]
fn fifo_ordering_of_equal_times() {
    let sys = test_sys();
    let mut registry = StackPoolRegistry::new(sys);
    let mut ids = IdGenerator::new();
    let mut scheduler: Scheduler<EchoPrint> = Scheduler::new(&mut ids);
    let mut a = Coroutine::new(&mut registry, &mut ids, 2048, EchoPrint { label: 1, env: 0 }, None)
        .unwrap();
    let mut b = Coroutine::new(&mut registry, &mut ids, 2048, EchoPrint { label: 2, env: 0 }, None)
        .unwrap();
    a.set_execute_time(5);
    b.set_execute_time(5);
    let a_id = a.get_id();
    let b_id = b.get_id();
    scheduler.submit_at(10, a);
    scheduler.submit_at(10, b);
    let finished = scheduler.try_schedule_at(&mut registry, 10);
    assert_eq!(2, finished.len());
    assert_eq!(a_id, finished[0].get_id());
    assert_eq!(b_id, finished[1].get_id());
}

#[test]
fn overdue_promotion_runs_first() {
    let sys = test_sys();
    let mut registry = StackPoolRegistry::new(sys);
    let mut ids = IdGenerator::new();
    let mut scheduler: Scheduler<EchoPrint> = Scheduler::new(&mut ids);
    let a = Coroutine::new(&mut registry, &mut ids, 2048, EchoPrint { label: 1, env: 0 }, None)
        .unwrap();
    let mut b = Coroutine::new(&mut registry, &mut ids, 2048, EchoPrint { label: 2, env: 0 }, None)
        .unwrap();
    b.set_execute_time(9);
    let a_id = a.get_id();
    let b_id = b.get_id();
    scheduler.submit_at(10, a);
    scheduler.submit_at(5, b);
    assert_eq!(1, scheduler.get_suspend().len());
    let finished = scheduler.try_schedule_at(&mut registry, 10);
    assert_eq!(2, finished.len());
    assert_eq!(b_id, finished[0].get_id());
    assert_eq!(a_id, finished[1].get_id());
}

#[test]
fn all_ready_finish_in_one_pass() {
    let sys = test_sys();
    let mut registry = StackPoolRegistry::new(sys);
    let mut ids = IdGenerator::new();
    let mut scheduler: Scheduler<EchoPrint> = Scheduler::new(&mut ids);
    let mut expected = Vec::new();
    for i in 0..5usize {
        let c = Coroutine::new(
            &mut registry,
            &mut ids,
            2048,
            EchoPrint { label: i, env: 0 },
            Some(i * 10),
        )
        .unwrap();
        expected.push((c.get_id(), i * 10));
        scheduler.submit_at(0, c);
    }
    let finished = scheduler.try_schedule_at(&mut registry, 0);
    assert_eq!(5, finished.len());
    for (k, (id, payload)) in expected.iter().enumerate() {
        assert_eq!(*id, finished[k].get_id());
        assert_eq!(Some(*payload), finished[k].get_result());
    }
    assert_eq!(0, scheduler.get_ready().len());
    assert_eq!(0, scheduler.get_suspend().len());
    assert_eq!(5, scheduler.get_finished().len());
}

#[test]
fn entrance_marking_links_tail_to_head() {
    let sys = test_sys();
    let mut registry = StackPoolRegistry::new(sys);
    let mut ids = IdGenerator::new();
    let mut scheduler: Scheduler<EchoPrint> = Scheduler::new(&mut ids);
    let a = Coroutine::new(&mut registry, &mut ids, 2048, EchoPrint { label: 1, env: 0 }, None)
        .unwrap();
    let b = Coroutine::new(&mut registry, &mut ids, 2048, EchoPrint { label: 2, env: 0 }, None)
        .unwrap();
    let a_id = a.get_id();
    scheduler.submit_at(0, a);
    scheduler.submit_at(0, b);
    scheduler.mark_entrance();
    let ready = scheduler.get_ready();
    assert_eq!(Some(a_id), ready[1].get_entrance());
    assert_eq!(None, ready[0].get_entrance());
}

#[test]
fn stacks_return_to_pool_after_pass() {
    let sys = test_sys();
    let mut registry = StackPoolRegistry::new(sys);
    let mut ids = IdGenerator::new();
    let mut scheduler: Scheduler<EchoPrint> = Scheduler::new(&mut ids);
    let c = Coroutine::new(&mut registry, &mut ids, 2048, EchoPrint { label: 1, env: 0 }, None)
        .unwrap();
    scheduler.submit_at(0, c);
    {
        let pool = open_coroutine::pools::get_memory_pool(&registry, 2048).unwrap();
        assert_eq!(1, pool.using().len());
    }
    scheduler.try_schedule_at(&mut registry, 0);
    let pool = open_coroutine::pools::get_memory_pool(&registry, 2048).unwrap();
    assert_eq!(0, pool.using().len());
    assert_eq!(1, pool.available().len());
}
