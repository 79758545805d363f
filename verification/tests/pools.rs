use open_coroutine::pool::SizedMemoryPool;
use open_coroutine::pools::StackPoolRegistry;
use open_coroutine::pools::allocate;
use open_coroutine::pools::get_memory_pool;
use open_coroutine::pools::revert;
use open_coroutine::system::SysConf;
use open_coroutine::system::min_size;

fn test_sys() -> SysConf {
    SysConf::new(4096, 8 * 1024 * 1024)
}

#[test]
fn test_sized_memory_pool() {
    let sys = test_sys();
    let size = min_size(sys);
    let mut pool = SizedMemoryPool::new(sys, size);
    assert_eq!(0, pool.available().len());
    assert_eq!(0, pool.using().len());

    let stack = pool.allocate().unwrap();
    assert_eq!(size, stack.len());
    assert!(stack.is_protected());

    assert_eq!(0, pool.available().len());
    assert_eq!(1, pool.using().len());
    pool.revert(stack);
    assert_eq!(1, pool.available().len());
    assert_eq!(0, pool.using().len());
}

#[test]
fn pool_test_sized_memory_pool() {
    let sys = test_sys();
    let mut pool = SizedMemoryPool::new(sys, min_size(sys));
    assert_eq!(0, pool.available().len());
    assert_eq!(0, pool.using().len());
    let stack = pool.allocate().unwrap();
    assert_eq!(0, pool.available().len());
    assert_eq!(1, pool.using().len());
    pool.revert(stack);
    assert_eq!(1, pool.available().len());
    assert_eq!(0, pool.using().len());
}

#[test]
fn lib_test_memory_pool() {
    let sys = test_sys();
    let size = min_size(sys);
    let mut registry = StackPoolRegistry::new(sys);
    assert_eq!(0, registry.len());
    let stack = allocate(&mut registry, size).unwrap();
    assert_eq!(size, stack.len());
    assert_eq!(1, registry.len());
    let pool = get_memory_pool(&registry, size).unwrap();
    assert_eq!(0, pool.available().len());
    assert_eq!(1, pool.using().len());
    revert(&mut registry, stack);
    let pool = get_memory_pool(&registry, size).unwrap();
    assert_eq!(1, pool.available().len());
    assert_eq!(0, pool.using().len());
}

#[test]
fn pools_test_memory_pool() {
    let sys = test_sys();
    let size = min_size(sys);
    let mut registry = StackPoolRegistry::new(sys);
    assert_eq!(0, registry.len());
    let stack = allocate(&mut registry, size).unwrap();
    assert_eq!(size, stack.len());
    assert_eq!(1, registry.len());
    let pool = get_memory_pool(&registry, size).unwrap();
    assert_eq!(0, pool.available().len());
    assert_eq!(1, pool.using().len());
    revert(&mut registry, stack);
    let pool = get_memory_pool(&registry, size).unwrap();
    assert_eq!(1, pool.available().len());
    assert_eq!(0, pool.using().len());
}

#[test]
fn revert_then_allocate_returns_cached_stack() {
    let sys = test_sys();
    let mut pool = SizedMemoryPool::new(sys, 4096);
    let first = pool.allocate().unwrap();
    pool.revert(first);
    assert_eq!(1, pool.available().len());
    let second = pool.allocate().unwrap();
    assert_eq!(first, second);
    assert_eq!(0, pool.available().len());
    assert_eq!(1, pool.using().len());
}

#[test]
fn distinct_stacks_for_concurrent_use() {
    let sys = test_sys();
    let mut pool = SizedMemoryPool::new(sys, 4096);
    let a = pool.allocate().unwrap();
    let b = pool.allocate().unwrap();
    assert_ne!(a, b);
    assert_eq!(2, pool.using().len());
}

#[test]
fn drop_releases_without_caching() {
    let sys = test_sys();
    let mut pool = SizedMemoryPool::new(sys, 4096);
    let a = pool.allocate().unwrap();
    assert!(pool.drop(a));
    assert_eq!(0, pool.available().len());
    assert_eq!(0, pool.using().len());
}

#[test]
fn oversize_pool_reports_maximum() {
    let sys = test_sys();
    let maxs = open_coroutine::system::max_size(sys, true);
    let mut registry = StackPoolRegistry::new(sys);
    match allocate(&mut registry, maxs + 1) {
        Err(open_coroutine::memory::MemoryError::ExceedsMaximumSize(_)) => {}
        _ => panic!(),
    }
    assert!(allocate(&mut registry, maxs).is_ok());
}

#[test]
fn registry_keys_by_normalised_size() {
    let sys = test_sys();
    let mut registry = StackPoolRegistry::new(sys);
    let a = allocate(&mut registry, 100).unwrap();
    assert_eq!(4096, a.len());
    let b = allocate(&mut registry, 4096).unwrap();
    assert_eq!(4096, b.len());
    assert_eq!(1, registry.len());
    let c = allocate(&mut registry, 5000).unwrap();
    assert_eq!(8192, c.len());
    assert_eq!(2, registry.len());
}
