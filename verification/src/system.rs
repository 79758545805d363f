use vstd::prelude::*;

verus! {

/// Machine facts that stack allocation depends on: the size of a memory page
/// and the process stack resource limit.  The embedder queries the operating
/// system once and hands the values in.
#[derive(Debug, Clone, Copy, PartialEq, Eq, Structural)]
pub struct SysConf {
    pub page_size: usize,
    pub stack_rlimit: usize,
}

impl SysConf {
    /// A configuration is usable when the page size is positive and small
    /// enough that guard-page arithmetic cannot overflow, and the stack
    /// limit is positive.
    pub open spec fn wf(self) -> bool {
        0 < self.page_size && self.page_size <= usize::MAX as int / 8 && 1 <= self.stack_rlimit
    }

    pub fn new(page_size: usize, stack_rlimit: usize) -> (r: SysConf)
        requires
            0 < page_size,
            page_size <= usize::MAX as int / 8,
            1 <= stack_rlimit,
        ensures
            r.page_size == page_size,
            r.stack_rlimit == stack_rlimit,
            r.wf(),
    {
        SysConf { page_size, stack_rlimit }
    }
}

/// The largest multiple of `ps` that is at most `x`.
pub open spec fn round_down_to_page(x: int, ps: int) -> int {
    x - x % ps
}

/// Bytes set aside beside a stack of the given protection: one page of
/// headroom, and one more for the guard page of a protected stack.
pub open spec fn guard_bytes(sys: SysConf, protected: bool) -> int {
    if protected {
        2 * sys.page_size
    } else {
        sys.page_size as int
    }
}

/// The largest stack length this platform grants, derived from the stack
/// resource limit less the guard allowance.
pub open spec fn spec_max_size(sys: SysConf, protected: bool) -> int {
    round_down_to_page(sys.stack_rlimit - 1, sys.page_size as int) - guard_bytes(sys, protected)
}

/// The minimal stack length allowed: one page.
pub fn min_size(sys: SysConf) -> (r: usize)
    requires
        sys.wf(),
    ensures
        r == sys.page_size,
{
    sys.page_size
}

/// The maximum stack length allowed for the given protection.
pub fn max_size(sys: SysConf, protected: bool) -> (r: usize)
    requires
        sys.wf(),
        spec_max_size(sys, protected) >= 0,
    ensures
        r == spec_max_size(sys, protected),
{
    let d = (sys.stack_rlimit - 1) - ((sys.stack_rlimit - 1) % sys.page_size);
    let g = if protected {
        2 * sys.page_size
    } else {
        sys.page_size
    };
    d - g
}

/// An implementation-defined default stack length: eight pages, clamped to
/// the platform maximum.
pub fn default_size(sys: SysConf, protected: bool) -> (r: usize)
    requires
        sys.wf(),
        spec_max_size(sys, protected) >= 0,
    ensures
        r == if 8 * sys.page_size <= spec_max_size(sys, protected) {
            8 * sys.page_size as int
        } else {
            spec_max_size(sys, protected)
        },
{
    let size = 8 * sys.page_size;
    let m = max_size(sys, protected);
    if size <= m {
        size
    } else {
        m
    }
}

} // verus!
