use vstd::prelude::*;

use std::collections::VecDeque;

use crate::memory::Memory;
use crate::memory::MemoryError;
use crate::memory::spec_fits;
use crate::memory::spec_stack_len;
use crate::system::SysConf;
use crate::system::guard_bytes;
use crate::system::spec_max_size;

verus! {

/// What a crossbeam FIFO queue of stacks holds, front first.
pub uninterp spec fn worker_queue(w: crossbeam_deque::Worker<Memory>) -> Seq<Memory>;

#[verifier::external_type_specification]
#[verifier::external_body]
#[verifier::reject_recursive_types(T)]
pub struct ExWorker<T>(crossbeam_deque::Worker<T>);

/// Relies on crossbeam_deque::Worker::new_fifo: a freshly created queue
/// holds nothing.
#[verifier::external_body]
fn worker_new_fifo() -> (r: crossbeam_deque::Worker<Memory>)
    ensures
        worker_queue(r) == Seq::<Memory>::empty(),
{
    crossbeam_deque::Worker::new_fifo()
}

/// Relies on crossbeam_deque::Worker::push: the task is appended at the back
/// of the queue.
#[verifier::external_body]
fn worker_push(w: &mut crossbeam_deque::Worker<Memory>, m: Memory)
    ensures
        worker_queue(*final(w)) == worker_queue(*old(w)).push(m),
{
    w.push(m)
}

/// Relies on crossbeam_deque::Worker::pop on a FIFO queue whose stealer is
/// never created: the front task leaves the queue, or `None` when the queue
/// is empty.
#[verifier::external_body]
fn worker_pop(w: &mut crossbeam_deque::Worker<Memory>) -> (r: Option<Memory>)
    ensures
        worker_queue(*old(w)).len() == 0 ==> r is None && worker_queue(*final(w)) == worker_queue(
            *old(w),
        ),
        worker_queue(*old(w)).len() > 0 ==> r == Some(worker_queue(*old(w))[0]) && worker_queue(
            *final(w),
        ) == worker_queue(*old(w)).drop_first(),
{
    w.pop()
}

/// Relies on crossbeam_deque::Worker::is_empty.
#[verifier::external_body]
fn worker_is_empty(w: &crossbeam_deque::Worker<Memory>) -> (r: bool)
    ensures
        r == (worker_queue(*w).len() == 0),
{
    w.is_empty()
}

/// A cache of guarded stacks of one normalised size: `available` holds the
/// free stacks, `using` the stacks currently backing a coroutine.
#[derive(Debug)]
pub struct SizedMemoryPool {
    sys: SysConf,
    size: usize,
    available: crossbeam_deque::Worker<Memory>,
    using: VecDeque<Memory>,
    next_base: usize,
}

/// The stacks the pool hands out move from `pre.using` to `post.using`'s
/// tail; this is the whole visible effect of a successful `allocate`.
pub open spec fn allocate_ok_transition(
    pre: SizedMemoryPool,
    post: SizedMemoryPool,
    m: Memory,
) -> bool {
    &&& m.wf()
    &&& m.protected
    &&& m.spec_len() == pre.norm_len()
    &&& post.using_seq() == pre.using_seq().push(m)
    &&& (pre.available_seq().len() > 0 ==> m == pre.available_seq()[0] && post.available_seq()
        == pre.available_seq().drop_first())
    &&& (pre.available_seq().len() == 0 ==> post.available_seq() == pre.available_seq())
    &&& post.spec_sys() == pre.spec_sys()
    &&& post.spec_size() == pre.spec_size()
}

/// The whole visible effect of `revert` on a stack found in `using`: it
/// leaves `using` and joins the back of `available`.
pub open spec fn revert_found_transition(
    pre: SizedMemoryPool,
    stack: Memory,
    post: SizedMemoryPool,
) -> bool {
    &&& exists|k: int|
        0 <= k < pre.using_seq().len() && pre.using_seq()[k] == stack && post.using_seq()
            == pre.using_seq().remove(k)
    &&& post.available_seq() == pre.available_seq().push(stack)
    &&& post.spec_sys() == pre.spec_sys()
    &&& post.spec_size() == pre.spec_size()
}

/// The whole visible effect of `drop` on a stack found in `using`: it
/// leaves `using` and is not cached.
pub open spec fn drop_found_transition(
    pre: SizedMemoryPool,
    stack: Memory,
    post: SizedMemoryPool,
) -> bool {
    &&& exists|k: int|
        0 <= k < pre.using_seq().len() && pre.using_seq()[k] == stack && post.using_seq()
            == pre.using_seq().remove(k)
    &&& post.available_seq() == pre.available_seq()
    &&& post.spec_sys() == pre.spec_sys()
    &&& post.spec_size() == pre.spec_size()
}

impl SizedMemoryPool {
    /// The machine facts this pool was built with.
    pub closed spec fn spec_sys(self) -> SysConf {
        self.sys
    }

    /// The stack size this pool serves.
    pub closed spec fn spec_size(self) -> int {
        self.size as int
    }

    /// The free stacks, front of the queue first.
    pub closed spec fn available_seq(self) -> Seq<Memory> {
        worker_queue(self.available)
    }

    /// The stacks handed out and not yet returned, oldest first.
    pub closed spec fn using_seq(self) -> Seq<Memory> {
        self.using@
    }

    /// Every stack this pool tracks, free ones first.
    pub open spec fn all_stacks(self) -> Seq<Memory> {
        self.available_seq() + self.using_seq()
    }

    /// The usable length every stack of this pool has.
    pub open spec fn norm_len(self) -> int {
        spec_stack_len(self.spec_sys(), self.spec_size(), true)
    }

    /// One region is acceptable in this pool when it is a protected stack of
    /// the pool's normalised length lying below the placement cursor.
    pub closed spec fn stack_ok(self, m: Memory) -> bool {
        &&& m.wf()
        &&& m.protected
        &&& m.spec_len() == self.norm_len()
        &&& m.bottom < m.top
        &&& m.top <= self.next_base
    }

    /// Well-formedness: the machine facts are sound, every tracked stack is
    /// acceptable, and no stack is tracked twice — the heart of the rule
    /// that a live stack sits in exactly one of the two sets.
    pub closed spec fn wf(self) -> bool {
        &&& self.sys.wf()
        &&& guard_bytes(self.sys, true) <= spec_max_size(self.sys, false)
        &&& self.sys.page_size <= self.next_base
        &&& forall|i: int|
            0 <= i < self.all_stacks().len() ==> self.stack_ok(#[trigger] self.all_stacks()[i])
        &&& self.all_stacks().no_duplicates()
    }

    /// An empty pool serving stacks of `size` bytes.
    pub fn new(sys: SysConf, size: usize) -> (r: SizedMemoryPool)
        requires
            sys.wf(),
            guard_bytes(sys, true) <= spec_max_size(sys, false),
        ensures
            r.wf(),
            r.spec_sys() == sys,
            r.spec_size() == size,
            r.available_seq().len() == 0,
            r.using_seq().len() == 0,
    {
        let r = SizedMemoryPool {
            sys,
            size,
            available: worker_new_fifo(),
            using: VecDeque::new(),
            next_base: sys.page_size,
        };
        proof {
            assert(r.all_stacks().len() == 0);
        }
        r
    }

    /// Draws a stack from `available`, creating a fresh one when none is
    /// cached, and records it in `using`.  Fails only when a fresh stack is
    /// needed and the platform refuses it: with `ExceedsMaximumSize` exactly
    /// when the pool's size is over the limit, else with `IoError`.
    pub fn allocate(&mut self) -> (r: Result<Memory, MemoryError>)
        requires
            old(self).wf(),
        ensures
            final(self).wf(),
            r matches Ok(m) ==> allocate_ok_transition(*old(self), *final(self), m),
            r matches Err(e) ==> {
                &&& old(self).available_seq().len() == 0
                &&& *final(self) == *old(self)
                &&& (!spec_fits(old(self).spec_sys(), old(self).spec_size(), true) <==> e matches
                    MemoryError::ExceedsMaximumSize(_))
            },
    {
        let ghost pre = *self;
        if worker_is_empty(&self.available) {
            match Memory::allocate(self.sys, self.size, true, self.next_base) {
                Ok(stack) => {
                    self.next_base = stack.top;
                    worker_push(&mut self.available, stack);
                    proof {
                        let alen = pre.available_seq().len() as int;
                        assert(self.all_stacks() =~= pre.available_seq().push(stack)
                            + pre.using_seq());
                        assert(stack.top > pre.next_base);
                        assert forall|i: int|
                            0 <= i < self.all_stacks().len() implies self.stack_ok(
                            #[trigger] self.all_stacks()[i],
                        ) by {
                            if i < alen {
                                assert(self.all_stacks()[i] == pre.all_stacks()[i]);
                                assert(pre.stack_ok(pre.all_stacks()[i]));
                            } else if i == alen {
                                assert(self.all_stacks()[i] == stack);
                            } else {
                                assert(self.all_stacks()[i] == pre.all_stacks()[i - 1]);
                                assert(pre.stack_ok(pre.all_stacks()[i - 1]));
                            }
                        }
                        assert forall|i: int, j: int|
                            0 <= i < j < self.all_stacks().len() implies self.all_stacks()[i]
                            != self.all_stacks()[j] by {
                            let pi = if i < alen {
                                i
                            } else {
                                i - 1
                            };
                            let pj = if j < alen {
                                j
                            } else {
                                j - 1
                            };
                            assert(pre.all_stacks().no_duplicates());
                            if i == alen {
                                assert(self.all_stacks()[i] == stack);
                                assert(self.all_stacks()[j] == pre.all_stacks()[pj]);
                                assert(pre.stack_ok(pre.all_stacks()[pj]));
                            } else if j == alen {
                                assert(self.all_stacks()[j] == stack);
                                assert(self.all_stacks()[i] == pre.all_stacks()[pi]);
                                assert(pre.stack_ok(pre.all_stacks()[pi]));
                            } else {
                                assert(self.all_stacks()[i] == pre.all_stacks()[pi]);
                                assert(self.all_stacks()[j] == pre.all_stacks()[pj]);
                            }
                        }
                    }
                },
                Err(e) => {
                    return Err(e);
                },
            }
        }
        let ghost mid = *self;
        match worker_pop(&mut self.available) {
            Some(stack) => {
                self.using.push_back(stack);
                proof {
                    assert(stack == mid.all_stacks()[0]);
                    assert(self.all_stacks() =~= mid.all_stacks().drop_first().push(stack));
                    assert forall|i: int| 0 <= i < self.all_stacks().len() implies self.stack_ok(
                        #[trigger] self.all_stacks()[i],
                    ) by {
                        if i < self.all_stacks().len() - 1 {
                            assert(self.all_stacks()[i] == mid.all_stacks()[i + 1]);
                            assert(mid.stack_ok(mid.all_stacks()[i + 1]));
                        } else {
                            assert(mid.stack_ok(mid.all_stacks()[0]));
                        }
                    }
                    assert forall|i: int, j: int|
                        0 <= i < j < self.all_stacks().len() implies self.all_stacks()[i]
                        != self.all_stacks()[j] by {
                        let n = self.all_stacks().len();
                        if j < n - 1 {
                            assert(self.all_stacks()[i] == mid.all_stacks()[i + 1]);
                            assert(self.all_stacks()[j] == mid.all_stacks()[j + 1]);
                        } else {
                            assert(self.all_stacks()[i] == mid.all_stacks()[i + 1]);
                            assert(self.all_stacks()[j] == mid.all_stacks()[0]);
                        }
                    }
                    if pre.available_seq().len() > 0 {
                        assert(self.available_seq() =~= pre.available_seq().drop_first());
                    } else {
                        assert(self.available_seq() =~= pre.available_seq());
                    }
                }
                Ok(stack)
            },
            None => {
                proof {
                    assert(false);
                }
                Err(MemoryError::IoError(crate::memory::ENOMEM_ERRNO))
            },
        }
    }

    /// Removes the first occurrence of `stack` from `using`, if any.
    fn delete_using(&mut self, stack: &Memory) -> (found: bool)
        ensures
            found == old(self).using_seq().contains(*stack),
            found ==> exists|k: int|
                0 <= k < old(self).using_seq().len() && old(self).using_seq()[k] == *stack
                    && #[trigger] final(self).using_seq() == old(self).using_seq().remove(k),
            !found ==> *final(self) == *old(self),
            final(self).available_seq() == old(self).available_seq(),
            final(self).spec_sys() == old(self).spec_sys(),
            final(self).spec_size() == old(self).spec_size(),
            final(self).next_base == old(self).next_base,
    {
        let n = self.using.len();
        let mut i: usize = 0;
        while i < n
            invariant
                n == self.using@.len(),
                0 <= i <= n,
                *self == *old(self),
                forall|k: int| 0 <= k < i ==> self.using@[k] != *stack,
            decreases n - i,
        {
            if self.using[i] == *stack {
                self.using.remove(i);
                proof {
                    assert(old(self).using_seq()[i as int] == *stack);
                    assert(final(self).using_seq() == old(self).using_seq().remove(i as int));
                }
                return true;
            }
            i += 1;
        }
        false
    }

    /// Returns a stack drawn from this pool: it leaves `using` and is cached
    /// in `available` again.  A stack the pool does not track in `using` is
    /// left alone.
    pub fn revert(&mut self, stack: Memory) -> (found: bool)
        requires
            old(self).wf(),
        ensures
            final(self).wf(),
            found == old(self).using_seq().contains(stack),
            found ==> revert_found_transition(*old(self), stack, *final(self)),
            !found ==> *final(self) == *old(self),
    {
        let ghost pre = *self;
        let found = self.delete_using(&stack);
        if found {
            let ghost mid = *self;
            worker_push(&mut self.available, stack);
            proof {
                let k = choose|k: int|
                    0 <= k < pre.using_seq().len() && pre.using_seq()[k] == stack
                        && #[trigger] mid.using_seq() == pre.using_seq().remove(k);
                lemma_rearrange_revert(pre.available_seq(), pre.using_seq(), k, stack);
                assert(self.all_stacks() =~= pre.available_seq().push(stack)
                    + pre.using_seq().remove(k));
                assert forall|i: int| 0 <= i < self.all_stacks().len() implies self.stack_ok(
                    #[trigger] self.all_stacks()[i],
                ) by {
                    let j = rearrange_revert_map(pre.available_seq().len() as int, k, i);
                    assert(self.all_stacks()[i] == pre.all_stacks()[j]);
                    assert(pre.stack_ok(pre.all_stacks()[j]));
                }
                assert forall|i1: int, i2: int|
                    0 <= i1 < i2 < self.all_stacks().len() implies self.all_stacks()[i1]
                    != self.all_stacks()[i2] by {
                    let alen = pre.available_seq().len() as int;
                    let j1 = rearrange_revert_map(alen, k, i1);
                    let j2 = rearrange_revert_map(alen, k, i2);
                    assert(self.all_stacks()[i1] == pre.all_stacks()[j1]);
                    assert(self.all_stacks()[i2] == pre.all_stacks()[j2]);
                    assert(j1 != j2);
                    assert(pre.all_stacks().no_duplicates());
                }
            }
        }
        found
    }

    /// Releases a stack drawn from this pool: it leaves `using` and is
    /// handed back to the operating system rather than cached.  A stack the
    /// pool does not track in `using` is left alone.
    pub fn drop(&mut self, stack: Memory) -> (found: bool)
        requires
            old(self).wf(),
        ensures
            final(self).wf(),
            found == old(self).using_seq().contains(stack),
            found ==> drop_found_transition(*old(self), stack, *final(self)),
            !found ==> *final(self) == *old(self),
    {
        let ghost pre = *self;
        let found = self.delete_using(&stack);
        proof {
            if found {
                let k = choose|k: int|
                    0 <= k < pre.using_seq().len() && pre.using_seq()[k] == stack
                        && #[trigger] self.using_seq() == pre.using_seq().remove(k);
                lemma_rearrange_drop(pre.available_seq(), pre.using_seq(), k);
                assert(self.all_stacks() =~= pre.available_seq() + pre.using_seq().remove(k));
                assert forall|i: int| 0 <= i < self.all_stacks().len() implies self.stack_ok(
                    #[trigger] self.all_stacks()[i],
                ) by {
                    let j = rearrange_drop_map(pre.available_seq().len() as int, k, i);
                    assert(self.all_stacks()[i] == pre.all_stacks()[j]);
                    assert(pre.stack_ok(pre.all_stacks()[j]));
                }
                assert forall|i1: int, i2: int|
                    0 <= i1 < i2 < self.all_stacks().len() implies self.all_stacks()[i1]
                    != self.all_stacks()[i2] by {
                    let alen = pre.available_seq().len() as int;
                    let j1 = rearrange_drop_map(alen, k, i1);
                    let j2 = rearrange_drop_map(alen, k, i2);
                    assert(self.all_stacks()[i1] == pre.all_stacks()[j1]);
                    assert(self.all_stacks()[i2] == pre.all_stacks()[j2]);
                    assert(pre.all_stacks().no_duplicates());
                }
            }
        }
        found
    }

    /// The queue of free stacks.
    pub fn available(&self) -> (r: &crossbeam_deque::Worker<Memory>)
        ensures
            worker_queue(*r) == self.available_seq(),
    {
        &self.available
    }

    /// The stacks currently handed out.
    pub fn using(&self) -> (r: &VecDeque<Memory>)
        ensures
            r@ == self.using_seq(),
    {
        &self.using
    }
}

/// Where position `i` of `a.push(m) + u.remove(k)` came from in `a + u`,
/// with `m` standing at position `a.len() + k` of `a + u`.
pub open spec fn rearrange_revert_map(alen: int, k: int, i: int) -> int {
    if i < alen {
        i
    } else if i == alen {
        alen + k
    } else if i - alen - 1 < k {
        i - 1
    } else {
        i
    }
}

/// Where position `i` of `a + u.remove(k)` came from in `a + u`.
pub open spec fn rearrange_drop_map(alen: int, k: int, i: int) -> int {
    if i < alen + k {
        i
    } else {
        i + 1
    }
}

/// Moving one stack of `u` to the back of `a` only rearranges `a + u`.
proof fn lemma_rearrange_revert(a: Seq<Memory>, u: Seq<Memory>, k: int, m: Memory)
    requires
        0 <= k < u.len(),
        u[k] == m,
    ensures
        forall|i: int|
            0 <= i < (a.push(m) + u.remove(k)).len() ==> {
                &&& 0 <= #[trigger] rearrange_revert_map(a.len() as int, k, i) < (a + u).len()
                &&& (a.push(m) + u.remove(k))[i] == (a + u)[rearrange_revert_map(
                    a.len() as int,
                    k,
                    i,
                )]
            },
{
    let post = a.push(m) + u.remove(k);
    let pre = a + u;
    assert forall|i: int| 0 <= i < post.len() implies {
        &&& 0 <= #[trigger] rearrange_revert_map(a.len() as int, k, i) < pre.len()
        &&& post[i] == pre[rearrange_revert_map(a.len() as int, k, i)]
    } by {
        if i < a.len() {
            assert(post[i] == a[i] && pre[i] == a[i]);
        } else if i == a.len() {
            assert(post[i] == m && pre[a.len() + k] == u[k]);
        } else {
            let t = i - a.len() - 1;
            if t < k {
                assert(post[i] == u[t] && pre[a.len() + t] == u[t]);
            } else {
                assert(post[i] == u[t + 1] && pre[a.len() + t + 1] == u[t + 1]);
            }
        }
    }
}

/// Dropping one stack of `u` keeps every other position of `a + u` in place.
proof fn lemma_rearrange_drop(a: Seq<Memory>, u: Seq<Memory>, k: int)
    requires
        0 <= k < u.len(),
    ensures
        forall|i: int|
            0 <= i < (a + u.remove(k)).len() ==> {
                &&& 0 <= #[trigger] rearrange_drop_map(a.len() as int, k, i) < (a + u).len()
                &&& (a + u.remove(k))[i] == (a + u)[rearrange_drop_map(a.len() as int, k, i)]
            },
{
    let post = a + u.remove(k);
    let pre = a + u;
    assert forall|i: int| 0 <= i < post.len() implies {
        &&& 0 <= #[trigger] rearrange_drop_map(a.len() as int, k, i) < pre.len()
        &&& post[i] == pre[rearrange_drop_map(a.len() as int, k, i)]
    } by {
        if i < a.len() {
            assert(post[i] == a[i] && pre[i] == a[i]);
        } else {
            let t = i - a.len();
            if t < k {
                assert(post[i] == u[t] && pre[a.len() + t] == u[t]);
            } else {
                assert(post[i] == u[t + 1] && pre[a.len() + t + 1] == u[t + 1]);
            }
        }
    }
}

/// Every stack a well-formed pool tracks has the pool's normalised length.
pub proof fn lemma_tracked_stack_len(p: SizedMemoryPool, s: Memory)
    requires
        p.wf(),
        p.all_stacks().contains(s),
    ensures
        s.spec_len() == p.norm_len(),
{
    let i = choose|i: int| 0 <= i < p.all_stacks().len() && p.all_stacks()[i] == s;
    assert(p.stack_ok(p.all_stacks()[i]));
}

/// A well-formed pool never tracks one stack twice: what sits in `using`
/// does not sit in `available`, and neither set repeats a stack.
pub proof fn lemma_stack_in_one_set(p: SizedMemoryPool, s: Memory)
    requires
        p.wf(),
    ensures
        !(p.available_seq().contains(s) && p.using_seq().contains(s)),
{
    if p.available_seq().contains(s) && p.using_seq().contains(s) {
        let i = choose|i: int| 0 <= i < p.available_seq().len() && p.available_seq()[i] == s;
        let j = choose|j: int| 0 <= j < p.using_seq().len() && p.using_seq()[j] == s;
        assert(p.all_stacks()[i] == s);
        assert(p.all_stacks()[p.available_seq().len() + j] == s);
        assert(p.all_stacks().no_duplicates());
    }
}

/// Allocate-then-revert round trip: a fresh stack drawn from an empty pool
/// and given back leaves `using` empty and exactly one cached stack in
/// `available`.
pub proof fn lemma_allocate_then_revert(
    pre: SizedMemoryPool,
    mid: SizedMemoryPool,
    post: SizedMemoryPool,
    m: Memory,
)
    requires
        pre.using_seq().len() == 0,
        pre.available_seq().len() == 0,
        allocate_ok_transition(pre, mid, m),
        revert_found_transition(mid, m, post),
    ensures
        post.using_seq().len() == 0,
        post.available_seq().len() == pre.available_seq().len() + 1,
{
}

} // verus!
