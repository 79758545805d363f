use open_coroutine::memory::Memory;
use open_coroutine::memory::MemoryError;
use open_coroutine::system::SysConf;
use open_coroutine::system::max_size;
use open_coroutine::system::min_size;

fn test_sys() -> SysConf {
    SysConf::new(4096, 8 * 1024 * 1024)
}

#[test]
fn stack_size_too_small() {
    let sys = test_sys();
    let stack = Memory::new(sys, 0).unwrap();
    assert_eq!(stack.len(), min_size(sys));

    let stack = Memory::new(sys, 0).unwrap();
    assert_eq!(stack.len(), min_size(sys));
}

#[test]
fn stack_size_too_large() {
    let sys = test_sys();
    let stack_size = max_size(sys, true);
    match Memory::allocate(sys, stack_size, true, 4096) {
        Err(MemoryError::ExceedsMaximumSize(_)) => panic!(),
        _ => {}
    }
    let stack_size = stack_size + 1;
    match Memory::allocate(sys, stack_size, true, 4096) {
        Err(MemoryError::ExceedsMaximumSize(..)) => {}
        _ => panic!(),
    }

    let stack_size = max_size(sys, false);
    match Memory::allocate(sys, stack_size, false, 4096) {
        Err(MemoryError::ExceedsMaximumSize(_)) => panic!(),
        _ => {}
    }
    let stack_size = stack_size + 1;
    match Memory::allocate(sys, stack_size, false, 4096) {
        Err(MemoryError::ExceedsMaximumSize(..)) => {}
        _ => panic!(),
    }
}

#[test]
fn clone() {
    let sys = test_sys();
    let size = min_size(sys);
    let stack = Memory::new(sys, size).unwrap();
    assert_eq!(stack.len(), size);
    let clone = stack.clone();
    assert_eq!(stack.len(), clone.len());
    assert_eq!(stack.is_protected(), clone.is_protected());
    assert_eq!(stack.top(), clone.top());
    assert_eq!(stack.bottom(), clone.bottom());
    assert_eq!(stack, clone);
}

#[test]
fn max_protected_stack_has_max_length() {
    let sys = test_sys();
    let maxs = max_size(sys, true);
    let stack = Memory::allocate(sys, maxs, true, 4096).unwrap();
    assert_eq!(stack.len(), maxs);
    assert!(stack.is_protected());
}

#[test]
fn rounds_up_to_page_multiple() {
    let sys = test_sys();
    let stack = Memory::new(sys, 2048).unwrap();
    assert_eq!(stack.len(), 4096);
    let stack = Memory::new(sys, 4097).unwrap();
    assert_eq!(stack.len(), 8192);
    let stack = Memory::new(sys, 8192).unwrap();
    assert_eq!(stack.len(), 8192);
}

#[test]
fn address_space_exhaustion_is_io_error() {
    let sys = test_sys();
    match Memory::allocate(sys, 4096, true, usize::MAX - 4096) {
        Err(MemoryError::IoError(_)) => {}
        _ => panic!(),
    }
}

#[test]
fn error_descriptions() {
    let e = MemoryError::ExceedsMaximumSize(123);
    assert_eq!(e.description(), "exceeds maximum stack size");
    let e = MemoryError::IoError(12);
    assert_eq!(e.description(), "I/O error during allocation");
}

#[test]
fn drop_extent_covers_guard_page() {
    let sys = test_sys();
    let stack = Memory::new(sys, 4096).unwrap();
    let (base, len) = stack.drop(sys);
    assert_eq!(base, stack.bottom() - 4096);
    assert_eq!(len, stack.len() + 4096);
}
