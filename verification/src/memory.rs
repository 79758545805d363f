use vstd::prelude::*;

use crate::system::SysConf;
use crate::system::guard_bytes;
use crate::system::round_down_to_page;
use crate::system::spec_max_size;

verus! {

/// The `errno` value reported when no address space is left to place a
/// stack.
pub const ENOMEM_ERRNO: i32 = 12;

/// Error returned by stack allocation.
#[derive(Debug, Clone, Copy, PartialEq, Eq, Structural)]
pub enum MemoryError {
    /// Carries the maximum number of bytes allowed for a stack.
    ExceedsMaximumSize(usize),
    /// An operating-system failure during allocation, as an `errno` value.
    IoError(i32),
}

impl MemoryError {
    /// A short description of the error kind.
    pub fn description(&self) -> (r: String)
        ensures
            (self matches MemoryError::ExceedsMaximumSize(_)) ==> r@
                == "exceeds maximum stack size"@,
            (self matches MemoryError::IoError(_)) ==> r@ == "I/O error during allocation"@,
    {
        match self {
            MemoryError::ExceedsMaximumSize(_) => "exceeds maximum stack size".to_owned(),
            MemoryError::IoError(_) => "I/O error during allocation".to_owned(),
        }
    }
}

/// One region of stack memory.  `top` and `bottom` delimit the usable bytes;
/// the stack grows down from `top`.  A protected region has one inaccessible
/// guard page mapped immediately below `bottom`.
#[derive(Debug, Clone, Copy, PartialEq, Eq, Structural)]
pub struct Memory {
    pub top: usize,
    pub bottom: usize,
    pub protected: bool,
}

/// The requested size, raised to the one-page minimum.
pub open spec fn spec_clamped(sys: SysConf, size: int) -> int {
    if size < sys.page_size {
        sys.page_size as int
    } else {
        size
    }
}

/// The page-aligned body of a stack of the requested size, before the guard
/// allowance is added.
pub open spec fn spec_rounded(sys: SysConf, size: int) -> int {
    round_down_to_page(spec_clamped(sys, size) - 1, sys.page_size as int)
}

/// How many bytes a stack of the requested size occupies in one mapping,
/// guard allowance included.
pub open spec fn spec_total_mapped(sys: SysConf, size: int, protected: bool) -> int {
    spec_rounded(sys, size) + guard_bytes(sys, protected)
}

/// The usable length of the stack that a request of `size` bytes yields:
/// `size` rounded up to a whole number of pages, at least one page.
pub open spec fn spec_stack_len(sys: SysConf, size: int, protected: bool) -> int {
    spec_total_mapped(sys, size, protected) - if protected {
        sys.page_size as int
    } else {
        0
    }
}

/// Whether a request of `size` bytes is within the platform limit.
pub open spec fn spec_fits(sys: SysConf, size: int, protected: bool) -> bool {
    spec_total_mapped(sys, size, protected) <= spec_max_size(sys, false)
}

impl Memory {
    /// Regions are well formed when `bottom` does not exceed `top` and a
    /// protected region leaves room for its guard page below `bottom`.
    pub open spec fn wf(self) -> bool {
        self.bottom <= self.top
    }

    /// The usable length in bytes.
    pub open spec fn spec_len(self) -> int {
        self.top - self.bottom
    }

    /// Builds a representation of existing stack memory from its bounds.
    pub fn init(top: usize, bottom: usize, protected: bool) -> (r: Memory)
        requires
            bottom <= top,
        ensures
            r == (Memory { top, bottom, protected }),
    {
        Memory { top, bottom, protected }
    }

    /// Plans a stack of at least `size` usable bytes placed at `base` in the
    /// address space.  The request is rounded up to a page multiple, raised
    /// to the one-page minimum, refused with `ExceedsMaximumSize` above the
    /// platform limit, and refused with `IoError` when no address space is
    /// left.  A protected stack sets one extra page below `bottom` aside as
    /// guard.
    pub fn allocate(sys: SysConf, size: usize, protected: bool, base: usize) -> (r: Result<
        Memory,
        MemoryError,
    >)
        requires
            sys.wf(),
            guard_bytes(sys, protected) <= spec_max_size(sys, false),
        ensures
            !spec_fits(sys, size as int, protected) ==> r == Err::<Memory, MemoryError>(
                MemoryError::ExceedsMaximumSize(
                    (spec_max_size(sys, false) - guard_bytes(sys, protected)) as usize,
                ),
            ),
            spec_fits(sys, size as int, protected) && base + spec_total_mapped(
                sys,
                size as int,
                protected,
            ) <= usize::MAX ==> r == Ok::<Memory, MemoryError>(
                (Memory {
                    top: (base + spec_total_mapped(sys, size as int, protected)) as usize,
                    bottom: (base + if protected {
                        sys.page_size as int
                    } else {
                        0
                    }) as usize,
                    protected,
                }),
            ),
            spec_fits(sys, size as int, protected) && base + spec_total_mapped(
                sys,
                size as int,
                protected,
            ) > usize::MAX ==> r == Err::<Memory, MemoryError>(MemoryError::IoError(ENOMEM_ERRNO)),
            r matches Ok(m) ==> m.wf() && m.spec_len() == spec_stack_len(
                sys,
                size as int,
                protected,
            ) && m.protected == protected,
    {
        let ps = sys.page_size;
        let maxs = crate::system::max_size(sys, false);
        let add = if protected {
            2 * ps
        } else {
            ps
        };
        let s = if size < ps {
            ps
        } else {
            size
        };
        let rounded = (s - 1) - ((s - 1) % ps);
        proof {
            vstd::arithmetic::div_mod::lemma_mod_division_less_than_divisor((s - 1) as int, ps as int);
        }
        match rounded.checked_add(add) {
            Some(total) => {
                if total <= maxs {
                    match base.checked_add(total) {
                        Some(top) => {
                            let bottom = if protected {
                                base + ps
                            } else {
                                base
                            };
                            Ok(Memory { top, bottom, protected })
                        },
                        None => Err(MemoryError::IoError(ENOMEM_ERRNO)),
                    }
                } else {
                    Err(MemoryError::ExceedsMaximumSize(maxs - add))
                }
            },
            None => {
                proof {
                    vstd::arithmetic::div_mod::lemma_mod_decreases((s - 1) as nat, ps as nat);
                }
                Err(MemoryError::ExceedsMaximumSize(maxs - add))
            },
        }
    }

    /// Allocates a protected stack of at least `size` bytes, one page into
    /// the model address space.
    pub fn new(sys: SysConf, size: usize) -> (r: Result<Memory, MemoryError>)
        requires
            sys.wf(),
            guard_bytes(sys, true) <= spec_max_size(sys, false),
        ensures
            !spec_fits(sys, size as int, true) ==> r == Err::<Memory, MemoryError>(
                MemoryError::ExceedsMaximumSize(
                    (spec_max_size(sys, false) - guard_bytes(sys, true)) as usize,
                ),
            ),
            spec_fits(sys, size as int, true) && sys.page_size + spec_total_mapped(
                sys,
                size as int,
                true,
            ) <= usize::MAX ==> (r matches Ok(m) && m.wf() && m.spec_len() == spec_stack_len(
                sys,
                size as int,
                true,
            ) && m.protected),
    {
        Memory::allocate(sys, size, true, sys.page_size)
    }

    /// The top of the stack, from which it grows down towards `bottom`.
    pub fn top(&self) -> (r: usize)
        ensures
            r == self.top,
    {
        self.top
    }

    /// The bottom of the stack, its lowest usable byte.
    pub fn bottom(&self) -> (r: usize)
        ensures
            r == self.bottom,
    {
        self.bottom
    }

    /// Whether a guard page is mapped below `bottom`.
    pub fn is_protected(&self) -> (r: bool)
        ensures
            r == self.protected,
    {
        self.protected
    }

    /// The usable length between `top` and `bottom`.
    pub fn len(&self) -> (r: usize)
        requires
            self.wf(),
        ensures
            r == self.spec_len(),
    {
        self.top - self.bottom
    }

    pub fn is_empty(&self) -> (r: bool)
        requires
            self.wf(),
        ensures
            r == (self.spec_len() == 0),
    {
        self.len() == 0
    }

    /// The whole extent to hand back to the operating system: for a
    /// protected stack the guard page below `bottom` is part of the mapping.
    pub fn drop(&self, sys: SysConf) -> (r: (usize, usize))
        requires
            self.wf(),
            sys.wf(),
            self.protected ==> sys.page_size <= self.bottom,
            self.protected ==> self.spec_len() + sys.page_size <= usize::MAX,
        ensures
            self.protected ==> r == ((self.bottom - sys.page_size) as usize, (self.spec_len()
                + sys.page_size) as usize),
            !self.protected ==> r == (self.bottom, self.spec_len() as usize),
    {
        if self.protected {
            (self.bottom - sys.page_size, self.len() + sys.page_size)
        } else {
            (self.bottom, self.len())
        }
    }
}

} // verus!
