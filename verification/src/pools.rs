use vstd::prelude::*;

use crate::memory::Memory;
use crate::memory::MemoryError;
use crate::memory::spec_clamped;
use crate::memory::spec_fits;
use crate::memory::spec_rounded;
use crate::memory::spec_stack_len;
use crate::memory::spec_total_mapped;
use crate::pool::SizedMemoryPool;
use crate::pool::drop_found_transition;
use crate::pool::revert_found_transition;
use crate::system::SysConf;
use crate::system::guard_bytes;
use crate::system::spec_max_size;
use vstd::arithmetic::div_mod::lemma_mod_multiples_vanish;
use vstd::arithmetic::div_mod::lemma_small_mod;

verus! {

/// The process-wide mapping from a normalised stack size to the pool that
/// serves it.
pub struct StackPoolRegistry {
    sys: SysConf,
    pools: Vec<(usize, SizedMemoryPool)>,
}

/// Requests are keyed by the stack length they normalise to.
pub open spec fn spec_norm(sys: SysConf, size: int) -> int {
    spec_stack_len(sys, size, true)
}

impl StackPoolRegistry {
    pub closed spec fn spec_sys(self) -> SysConf {
        self.sys
    }

    pub closed spec fn pools_seq(self) -> Seq<(usize, SizedMemoryPool)> {
        self.pools@
    }

    /// Whether a pool for the given normalised size exists.
    pub open spec fn has_pool(self, key: usize) -> bool {
        exists|i: int| 0 <= i < self.pools_seq().len() && (#[trigger] self.pools_seq()[i]).0 == key
    }

    /// The index of the pool for `key`; meaningful only when `has_pool`.
    pub open spec fn spec_pool_index(self, key: usize) -> int {
        choose|i: int| 0 <= i < self.pools_seq().len() && (#[trigger] self.pools_seq()[i]).0 == key
    }

    /// The pool serving `key`; meaningful only when `has_pool`.
    pub open spec fn pool_of(self, key: usize) -> SizedMemoryPool {
        self.pools_seq()[self.spec_pool_index(key)].1
    }

    /// The stacks handed out for `key`, oldest first; empty when no pool
    /// serves `key` yet.
    pub open spec fn using_of(self, key: usize) -> Seq<Memory> {
        if self.has_pool(key) {
            self.pool_of(key).using_seq()
        } else {
            Seq::<Memory>::empty()
        }
    }

    /// The cached free stacks for `key`; empty when no pool serves `key`.
    pub open spec fn available_of(self, key: usize) -> Seq<Memory> {
        if self.has_pool(key) {
            self.pool_of(key).available_seq()
        } else {
            Seq::<Memory>::empty()
        }
    }

    /// Well-formedness: sound machine facts, one pool per key, and every
    /// pool well formed, serving exactly its key, which is normalised.
    pub closed spec fn wf(self) -> bool {
        &&& self.sys.wf()
        &&& guard_bytes(self.sys, true) <= spec_max_size(self.sys, false)
        &&& forall|i: int, j: int|
            0 <= i < j < self.pools_seq().len() ==> (#[trigger] self.pools_seq()[i]).0 != (
            #[trigger] self.pools_seq()[j]).0
        &&& forall|i: int|
            0 <= i < self.pools_seq().len() ==> {
                &&& (#[trigger] self.pools_seq()[i]).1.wf()
                &&& self.pools_seq()[i].1.spec_sys() == self.sys
                &&& self.pools_seq()[i].1.spec_size() == self.pools_seq()[i].0 as int
                &&& spec_norm(self.sys, self.pools_seq()[i].0 as int) == self.pools_seq()[i].0 as int
            }
    }

    /// An empty registry over the given machine facts.
    pub fn new(sys: SysConf) -> (r: StackPoolRegistry)
        requires
            sys.wf(),
            guard_bytes(sys, true) <= spec_max_size(sys, false),
        ensures
            r.wf(),
            r.spec_sys() == sys,
            r.pools_seq().len() == 0,
    {
        StackPoolRegistry { sys, pools: Vec::new() }
    }

    /// How many sizes have a pool.
    pub fn len(&self) -> (r: usize)
        ensures
            r == self.pools_seq().len(),
    {
        self.pools.len()
    }

    /// The machine facts the registry was built with.
    pub fn sys(&self) -> (r: SysConf)
        ensures
            r == self.spec_sys(),
    {
        self.sys
    }
}

/// When `i` holds `key`, the unique index of `key` is `i`.
proof fn lemma_pool_index_is(reg: StackPoolRegistry, key: usize, i: int)
    requires
        reg.wf(),
        0 <= i < reg.pools_seq().len(),
        reg.pools_seq()[i].0 == key,
    ensures
        reg.has_pool(key),
        reg.spec_pool_index(key) == i,
        reg.pool_of(key) == reg.pools_seq()[i].1,
{
    assert(reg.has_pool(key));
    let j = reg.spec_pool_index(key);
    if j != i {
        assert(reg.pools_seq()[i].0 != reg.pools_seq()[j].0);
    }
}

/// Normalising is idempotent: a normalised length normalises to itself, and
/// occupies the same mapping as the request it came from.
pub proof fn lemma_norm_idempotent(sys: SysConf, size: int)
    requires
        sys.wf(),
    ensures
        spec_norm(sys, spec_norm(sys, size)) == spec_norm(sys, size),
        spec_total_mapped(sys, spec_norm(sys, size), true) == spec_total_mapped(sys, size, true),
        spec_norm(sys, size) >= sys.page_size,
{
    let ps = sys.page_size as int;
    let c = spec_clamped(sys, size);
    let rem = (c - 1) % ps;
    let r = (c - 1) - rem;
    let n = r + ps;
    assert(c >= ps);
    if c - 1 < ps {
        lemma_small_mod((c - 1) as nat, ps as nat);
        assert(rem == c - 1);
    }
    assert(r >= 0);
    broadcast use vstd::arithmetic::div_mod::lemma_fundamental_div_mod;

    let q = (c - 1) / ps;
    assert(c - 1 == ps * q + rem);
    assert(r == ps * q);
    assert(n - 1 == ps * q + (ps - 1)) by {
        assert(n == r + ps);
    }
    lemma_mod_multiples_vanish(q, ps - 1, ps);
    lemma_small_mod((ps - 1) as nat, ps as nat);
    assert((n - 1) % ps == ps - 1);
    assert(spec_clamped(sys, n) == n);
    assert(spec_rounded(sys, n) == (n - 1) - (ps - 1));
    assert(spec_stack_len(sys, n, true) == n);
    assert(spec_stack_len(sys, size, true) == n);
}

/// Looks a key up in the registry.
fn find_pool_index(reg: &StackPoolRegistry, key: usize) -> (r: Option<usize>)
    requires
        reg.wf(),
    ensures
        r matches Some(i) ==> i < reg.pools_seq().len() && reg.pools_seq()[i as int].0 == key
            && reg.has_pool(key) && reg.spec_pool_index(key) == i,
        r is None ==> !reg.has_pool(key),
{
    let n = reg.pools.len();
    let mut i: usize = 0;
    while i < n
        invariant
            reg.wf(),
            n == reg.pools_seq().len(),
            0 <= i <= n,
            forall|k: int| 0 <= k < i ==> (#[trigger] reg.pools_seq()[k]).0 != key,
        decreases n - i,
    {
        if reg.pools[i].0 == key {
            proof {
                lemma_pool_index_is(*reg, key, i as int);
            }
            return Some(i);
        }
        i += 1;
    }
    None
}

/// The normalised stack length a request of `size` bytes yields, or `None`
/// when it cannot be represented.
fn normalized_len(sys: SysConf, size: usize) -> (r: Option<usize>)
    requires
        sys.wf(),
    ensures
        r matches Some(n) ==> n == spec_norm(sys, size as int),
        r is None ==> spec_norm(sys, size as int) > usize::MAX,
{
    let ps = sys.page_size;
    let s = if size < ps {
        ps
    } else {
        size
    };
    let rounded = (s - 1) - ((s - 1) % ps);
    proof {
        if s - 1 < ps {
            lemma_small_mod((s - 1) as nat, ps as nat);
        }
    }
    rounded.checked_add(ps)
}

/// Serves a stack of at least `size` bytes from the pool keyed by the
/// normalised size, creating that pool on first use.  An oversize request
/// fails with `ExceedsMaximumSize`; exhaustion fails with `IoError`, and
/// only when the keyed pool had no cached stack: a cached stack is always
/// served.  Pools for other sizes are never touched.
pub fn allocate(reg: &mut StackPoolRegistry, size: usize) -> (r: Result<Memory, MemoryError>)
    requires
        old(reg).wf(),
    ensures
        final(reg).wf(),
        final(reg).spec_sys() == old(reg).spec_sys(),
        r matches Ok(m) ==> {
            &&& m.wf()
            &&& m.protected
            &&& m.spec_len() == spec_norm(old(reg).spec_sys(), size as int)
            &&& spec_norm(old(reg).spec_sys(), size as int) <= usize::MAX
            &&& final(reg).using_of(spec_norm(old(reg).spec_sys(), size as int) as usize) == old(
                reg,
            ).using_of(spec_norm(old(reg).spec_sys(), size as int) as usize).push(m)
            &&& (old(reg).available_of(spec_norm(old(reg).spec_sys(), size as int) as usize).len()
                > 0 ==> m == old(reg).available_of(
                spec_norm(old(reg).spec_sys(), size as int) as usize,
            )[0] && final(reg).available_of(spec_norm(old(reg).spec_sys(), size as int) as usize)
                == old(reg).available_of(
                spec_norm(old(reg).spec_sys(), size as int) as usize,
            ).drop_first())
            &&& (old(reg).available_of(spec_norm(old(reg).spec_sys(), size as int) as usize).len()
                == 0 ==> final(reg).available_of(spec_norm(old(reg).spec_sys(), size as int) as usize)
                == old(reg).available_of(spec_norm(old(reg).spec_sys(), size as int) as usize))
        },
        r matches Err(e) ==> (e matches MemoryError::ExceedsMaximumSize(_) <==> !spec_fits(
            old(reg).spec_sys(),
            size as int,
            true,
        )),
        r matches Err(e) ==> spec_norm(old(reg).spec_sys(), size as int) > usize::MAX || old(
            reg,
        ).available_of(spec_norm(old(reg).spec_sys(), size as int) as usize).len() == 0,
        r matches Err(e) ==> forall|k: usize|
            final(reg).using_of(k) == old(reg).using_of(k) && final(reg).available_of(k) == old(
                reg,
            ).available_of(k),
        forall|k: usize|
            k as int != spec_norm(old(reg).spec_sys(), size as int) ==> final(reg).using_of(k)
                == old(reg).using_of(k) && final(reg).available_of(k) == old(reg).available_of(k),
        spec_norm(old(reg).spec_sys(), size as int) <= usize::MAX ==> final(reg).has_pool(
            spec_norm(old(reg).spec_sys(), size as int) as usize,
        ) && final(reg).pools_seq().len() == old(reg).pools_seq().len() + (
        if old(reg).has_pool(spec_norm(old(reg).spec_sys(), size as int) as usize) {
            0int
        } else {
            1int
        }),
        spec_norm(old(reg).spec_sys(), size as int) > usize::MAX ==> *final(reg) == *old(reg),
{
    let ghost sys = reg.sys;
    let norm = match normalized_len(reg.sys, size) {
        Some(n) => n,
        None => {
            proof {
                assert(spec_total_mapped(sys, size as int, true) > usize::MAX);
                assert(spec_max_size(sys, false) <= sys.stack_rlimit - 1);
                assert(!spec_fits(sys, size as int, true));
            }
            let maxs = crate::system::max_size(reg.sys, false);
            let add = 2 * reg.sys.page_size;
            return Err(MemoryError::ExceedsMaximumSize(maxs - add));
        },
    };
    proof {
        lemma_norm_idempotent(sys, size as int);
    }
    match find_pool_index(reg, norm) {
        Some(i) => {
            let ghost pre = *reg;
            let mut entry = reg.pools.remove(i);
            let r = entry.1.allocate();
            let ghost newpool = entry.1;
            reg.pools.insert(i, entry);
            proof {
                assert(reg.pools_seq() =~= pre.pools_seq().update(i as int, (norm, newpool)));
                lemma_pool_index_is(*reg, norm, i as int);
                assert forall|k: usize| #[trigger]
                    reg.has_pool(k) == pre.has_pool(k) && (k != norm && pre.has_pool(k)
                        ==> reg.pool_of(k) == pre.pool_of(k)) by {
                    assert forall|j: int|
                        0 <= j < reg.pools_seq().len() implies (#[trigger] reg.pools_seq()[j]).0
                        == pre.pools_seq()[j].0 by {}
                    if pre.has_pool(k) {
                        let j = pre.spec_pool_index(k);
                        assert(reg.pools_seq()[j].0 == k);
                        lemma_pool_index_is(*reg, k, j);
                        if k != norm {
                            lemma_pool_index_is(pre, k, j);
                        }
                    }
                    if reg.has_pool(k) {
                        let j = reg.spec_pool_index(k);
                        assert(pre.pools_seq()[j].0 == k);
                        assert(pre.has_pool(k));
                    }
                }
            }
            r
        },
        None => {
            let ghost pre = *reg;
            let mut pool = SizedMemoryPool::new(reg.sys, norm);
            let r = pool.allocate();
            let ghost newpool = pool;
            reg.pools.push((norm, pool));
            proof {
                let n = pre.pools_seq().len() as int;
                assert(reg.pools_seq() =~= pre.pools_seq().push((norm, newpool)));
                lemma_pool_index_is(*reg, norm, n);
                assert forall|k: usize| k != norm && #[trigger] pre.has_pool(k) implies
                    reg.has_pool(k) && reg.pool_of(k) == pre.pool_of(k) by {
                    let j = pre.spec_pool_index(k);
                    lemma_pool_index_is(*reg, k, j);
                }
                assert forall|k: usize| k != norm && #[trigger] reg.has_pool(k) implies
                    pre.has_pool(k) by {
                    let j = reg.spec_pool_index(k);
                    assert(pre.pools_seq()[j].0 == k);
                }
                assert(!pre.has_pool(norm));
            }
            r
        },
    }
}

/// Gives a stack back to the pool of its length: it leaves that pool's
/// `using` set and is cached in `available` again.  Without a matching pool
/// nothing happens.
pub fn revert(reg: &mut StackPoolRegistry, stack: Memory) -> (found: bool)
    requires
        old(reg).wf(),
        stack.wf(),
    ensures
        final(reg).wf(),
        final(reg).spec_sys() == old(reg).spec_sys(),
        found == (stack.spec_len() <= usize::MAX && old(reg).using_of(
            stack.spec_len() as usize,
        ).contains(stack)),
        found ==> revert_found_transition(
            old(reg).pool_of(stack.spec_len() as usize),
            stack,
            final(reg).pool_of(stack.spec_len() as usize),
        ),
        !found ==> forall|k: usize|
            final(reg).using_of(k) == old(reg).using_of(k) && final(reg).available_of(k) == old(
                reg,
            ).available_of(k),
{
    let key = stack.len();
    match find_pool_index(reg, key) {
        Some(i) => {
            let ghost pre = *reg;
            let mut entry = reg.pools.remove(i);
            let found = entry.1.revert(stack);
            let ghost newpool = entry.1;
            reg.pools.insert(i, entry);
            proof {
                assert(reg.pools_seq() =~= pre.pools_seq().update(i as int, (key, newpool)));
                lemma_pool_index_is(*reg, key, i as int);
                lemma_pool_index_is(pre, key, i as int);
                assert forall|k: usize| k != key implies #[trigger] reg.using_of(k)
                    == pre.using_of(k) && reg.available_of(k) == pre.available_of(k) by {
                    assert forall|j: int|
                        0 <= j < reg.pools_seq().len() implies (#[trigger] reg.pools_seq()[j]).0
                        == pre.pools_seq()[j].0 by {}
                    if pre.has_pool(k) {
                        let j = pre.spec_pool_index(k);
                        lemma_pool_index_is(*reg, k, j);
                    }
                    if reg.has_pool(k) {
                        let j = reg.spec_pool_index(k);
                        assert(pre.pools_seq()[j].0 == k);
                        assert(pre.has_pool(k));
                    }
                }
                if !found {
                    assert(reg.pools_seq() =~= pre.pools_seq());
                }
            }
            found
        },
        None => {
            proof {
                assert(!old(reg).has_pool(key));
            }
            false
        },
    }
}

/// Releases a stack: it leaves its pool's `using` set without being cached.
/// Without a matching pool nothing happens.
pub fn drop(reg: &mut StackPoolRegistry, stack: Memory) -> (found: bool)
    requires
        old(reg).wf(),
        stack.wf(),
    ensures
        final(reg).wf(),
        final(reg).spec_sys() == old(reg).spec_sys(),
        found == (stack.spec_len() <= usize::MAX && old(reg).using_of(
            stack.spec_len() as usize,
        ).contains(stack)),
        found ==> drop_found_transition(
            old(reg).pool_of(stack.spec_len() as usize),
            stack,
            final(reg).pool_of(stack.spec_len() as usize),
        ),
        !found ==> forall|k: usize|
            final(reg).using_of(k) == old(reg).using_of(k) && final(reg).available_of(k) == old(
                reg,
            ).available_of(k),
{
    let key = stack.len();
    match find_pool_index(reg, key) {
        Some(i) => {
            let ghost pre = *reg;
            let mut entry = reg.pools.remove(i);
            let found = entry.1.drop(stack);
            let ghost newpool = entry.1;
            reg.pools.insert(i, entry);
            proof {
                assert(reg.pools_seq() =~= pre.pools_seq().update(i as int, (key, newpool)));
                lemma_pool_index_is(*reg, key, i as int);
                lemma_pool_index_is(pre, key, i as int);
                assert forall|k: usize| k != key implies #[trigger] reg.using_of(k)
                    == pre.using_of(k) && reg.available_of(k) == pre.available_of(k) by {
                    assert forall|j: int|
                        0 <= j < reg.pools_seq().len() implies (#[trigger] reg.pools_seq()[j]).0
                        == pre.pools_seq()[j].0 by {}
                    if pre.has_pool(k) {
                        let j = pre.spec_pool_index(k);
                        lemma_pool_index_is(*reg, k, j);
                    }
                    if reg.has_pool(k) {
                        let j = reg.spec_pool_index(k);
                        assert(pre.pools_seq()[j].0 == k);
                        assert(pre.has_pool(k));
                    }
                }
                if !found {
                    assert(reg.pools_seq() =~= pre.pools_seq());
                }
            }
            found
        },
        None => {
            false
        },
    }
}

/// Through the registry: the pool serving any key never holds one stack in
/// both of its rows — what is cached in `available` is not out in `using`.
pub proof fn lemma_registry_stack_in_one_set(reg: StackPoolRegistry, key: usize, s: Memory)
    requires
        reg.wf(),
    ensures
        !(reg.available_of(key).contains(s) && reg.using_of(key).contains(s)),
{
    if reg.has_pool(key) {
        let i = reg.spec_pool_index(key);
        assert(reg.pools_seq()[i].1.wf());
        crate::pool::lemma_stack_in_one_set(reg.pool_of(key), s);
    }
}

/// Across a registry, a stack is tracked by at most one pool: pools serve
/// distinct normalised sizes, and every stack has its pool's size.
pub proof fn lemma_stack_in_one_pool(reg: StackPoolRegistry, k1: usize, k2: usize, s: Memory)
    requires
        reg.wf(),
        k1 != k2,
        reg.has_pool(k1),
        reg.has_pool(k2),
    ensures
        !(reg.pool_of(k1).all_stacks().contains(s) && reg.pool_of(k2).all_stacks().contains(s)),
{
    let i1 = reg.spec_pool_index(k1);
    let i2 = reg.spec_pool_index(k2);
    if reg.pool_of(k1).all_stacks().contains(s) && reg.pool_of(k2).all_stacks().contains(s) {
        crate::pool::lemma_tracked_stack_len(reg.pool_of(k1), s);
        crate::pool::lemma_tracked_stack_len(reg.pool_of(k2), s);
        lemma_norm_idempotent(reg.spec_sys(), k1 as int);
        lemma_norm_idempotent(reg.spec_sys(), k2 as int);
        assert(reg.pool_of(k1).norm_len() == k1 as int);
        assert(reg.pool_of(k2).norm_len() == k2 as int);
    }
}

/// The pool serving requests of `size` bytes, if one exists yet.
pub fn get_memory_pool(reg: &StackPoolRegistry, size: usize) -> (r: Option<&SizedMemoryPool>)
    requires
        reg.wf(),
    ensures
        r matches Some(p) ==> spec_norm(reg.spec_sys(), size as int) <= usize::MAX && reg.has_pool(
            spec_norm(reg.spec_sys(), size as int) as usize,
        ) && *p == reg.pool_of(spec_norm(reg.spec_sys(), size as int) as usize),
        r is None ==> spec_norm(reg.spec_sys(), size as int) > usize::MAX || !reg.has_pool(
            spec_norm(reg.spec_sys(), size as int) as usize,
        ),
{
    match normalized_len(reg.sys, size) {
        Some(norm) => {
            match find_pool_index(reg, norm) {
                Some(i) => Some(&reg.pools[i].1),
                None => None,
            }
        },
        None => None,
    }
}

} // verus!
