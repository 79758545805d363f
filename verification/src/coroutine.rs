use vstd::prelude::*;

use crate::ids::IdGenerator;
use crate::memory::Memory;
use crate::memory::MemoryError;
use crate::pool::revert_found_transition;
use crate::pools::StackPoolRegistry;
use crate::pools::spec_norm;
use crate::timer::get_timeout_time;

verus! {

/// The life cycle stage of a coroutine.
#[derive(Debug, Clone, Copy, PartialEq, Eq, Structural)]
pub enum Status {
    /// Freshly created.
    Created,
    /// Waiting to run.
    Ready,
    /// Running now.
    Running,
    /// Suspended until its execution time.
    Suspend,
    /// Inside an interposed system call (reserved).
    SystemCall,
    /// Its stack is being resized (reserved).
    CopyStack,
    /// Its user function returned; not yet exited.
    Finished,
    /// Exited; its stack has been given back.
    Exited,
}

/// The one-shot function a coroutine runs.  Implementations are the user's;
/// nothing is assumed of what `invoke` returns.  The `Copy` bound mirrors
/// the runtime's habit of moving the function by plain memory copy.
pub trait UserFunction: Sized + Copy {
    fn invoke(&mut self, param: Option<usize>) -> Option<usize>;
}

/// One coroutine: a user function, its private stack, its saved progress
/// and its scheduling links.  Links to other coroutines and to a scheduler
/// are plain ids.
#[derive(Debug, Clone, Copy)]
pub struct Coroutine<F: UserFunction> {
    pub id: usize,
    pub stack: Memory,
    pub status: Status,
    pub proc: F,
    pub param: Option<usize>,
    pub result: Option<usize>,
    pub exec_time: u64,
    pub next: Option<usize>,
    pub entrance: Option<usize>,
    pub scheduler: Option<usize>,
}

/// `b` is what `a` becomes when its user function has run: everything kept
/// but the status, which is `Finished`, and the result, which is whatever
/// the user function returned.  The result value itself is deliberately not
/// related here: `UserFunction::invoke` carries no contract, so no pass- or
/// chain-level clause can name what it returned; `Coroutine::invoke` alone
/// ties the stored result to the call's return value.
pub open spec fn runs_to<F: UserFunction>(a: Coroutine<F>, b: Coroutine<F>) -> bool {
    &&& b.id == a.id
    &&& b.stack == a.stack
    &&& b.param == a.param
    &&& b.exec_time == a.exec_time
    &&& b.next == a.next
    &&& b.entrance == a.entrance
    &&& b.scheduler == a.scheduler
    &&& b.status == Status::Finished
}

impl<F: UserFunction> Coroutine<F> {
    /// Creates a coroutine over a stack of at least `size` bytes drawn from
    /// the registry, under a fresh id of the `"coroutine"` category.  Only
    /// stack allocation can fail; the id is drawn only on success.
    pub fn new(
        reg: &mut StackPoolRegistry,
        ids: &mut IdGenerator,
        size: usize,
        proc: F,
        param: Option<usize>,
    ) -> (r: Result<Coroutine<F>, MemoryError>)
        requires
            old(reg).wf(),
            old(ids).wf(),
        ensures
            final(reg).wf(),
            final(ids).wf(),
            final(reg).spec_sys() == old(reg).spec_sys(),
            r matches Ok(c) ==> {
                &&& c.id == old(ids).spec_next("coroutine"@)
                &&& c.status == Status::Created
                &&& c.proc == proc
                &&& c.param == param
                &&& c.result is None
                &&& c.exec_time == 0
                &&& c.next is None
                &&& c.entrance is None
                &&& c.scheduler is None
                &&& c.stack.wf()
                &&& c.stack.protected
                &&& c.stack.spec_len() == spec_norm(old(reg).spec_sys(), size as int)
                &&& final(reg).using_of(c.stack.spec_len() as usize) == old(reg).using_of(
                    c.stack.spec_len() as usize,
                ).push(c.stack)
                &&& (old(reg).available_of(c.stack.spec_len() as usize).len() > 0 ==> c.stack
                    == old(reg).available_of(c.stack.spec_len() as usize)[0]
                    && final(reg).available_of(c.stack.spec_len() as usize)
                    == old(reg).available_of(c.stack.spec_len() as usize).drop_first())
                &&& (old(reg).available_of(c.stack.spec_len() as usize).len() == 0
                    ==> final(reg).available_of(c.stack.spec_len() as usize)
                    == old(reg).available_of(c.stack.spec_len() as usize))
            },
            forall|k: usize|
                k as int != spec_norm(old(reg).spec_sys(), size as int) ==> final(reg).using_of(k)
                    == old(reg).using_of(k) && final(reg).available_of(k) == old(reg).available_of(
                    k,
                ),
            r matches Err(e) ==> *final(ids) == *old(ids) && (e matches
                MemoryError::ExceedsMaximumSize(_) <==> !crate::memory::spec_fits(
                old(reg).spec_sys(),
                size as int,
                true,
            )),
            r matches Err(e) ==> spec_norm(old(reg).spec_sys(), size as int) > usize::MAX || old(
                reg,
            ).available_of(spec_norm(old(reg).spec_sys(), size as int) as usize).len() == 0,
            r matches Err(e) ==> forall|k: usize|
                final(reg).using_of(k) == old(reg).using_of(k) && final(reg).available_of(k)
                    == old(reg).available_of(k),
    {
        let stack = match crate::pools::allocate(reg, size) {
            Ok(stack) => stack,
            Err(e) => {
                return Err(e);
            },
        };
        let id = ids.next_id("coroutine");
        Ok(
            Coroutine {
                id,
                stack,
                status: Status::Created,
                proc,
                param,
                result: None,
                exec_time: 0,
                next: None,
                entrance: None,
                scheduler: None,
            },
        )
    }

    /// Runs the user function once: the coroutine passes through `Running`
    /// and ends `Finished`, its result whatever the function returned.
    pub(crate) fn invoke(&mut self) -> (r: Option<usize>)
        ensures
            runs_to(*old(self), *final(self)),
            final(self).proc == old(self).proc,
            final(self).result == r,
    {
        self.status = Status::Running;
        let mut f = self.proc;
        let r = f.invoke(self.param);
        self.result = r;
        self.status = Status::Finished;
        r
    }

    /// Resumes the coroutine at the given moment: before its execution time
    /// nothing happens; from it on, the user function runs and the finished
    /// coroutine is returned.
    pub fn resume_at(&mut self, now: u64) -> (r: Option<Coroutine<F>>)
        ensures
            now < old(self).exec_time ==> r is None && *final(self) == *old(self),
            now >= old(self).exec_time ==> {
                &&& r == Some(*final(self))
                &&& runs_to(*old(self), *final(self))
                &&& final(self).proc == old(self).proc
            },
    {
        if now < self.exec_time {
            return None;
        }
        self.invoke();
        Some(*self)
    }

    /// Resumes at the current wall clock; the reading itself is
    /// unconstrained, the behaviour at a given reading that of `resume_at`.
    pub fn resume(&mut self) -> (r: Option<Coroutine<F>>)
        ensures
            r is None ==> *final(self) == *old(self),
            r is Some ==> r == Some(*final(self)) && runs_to(*old(self), *final(self)),
    {
        let t = crate::timer::now();
        self.resume_at(t)
    }

    /// Overrides the parameter, then resumes as `resume` does.
    pub fn resume_with(&mut self, param: Option<usize>) -> (r: Option<Coroutine<F>>)
        ensures
            final(self).param == param,
            r is Some ==> r == Some(*final(self)) && final(self).status == Status::Finished,
            r is None ==> *final(self) == (Coroutine { param, ..*old(self) }),
    {
        self.set_param(param);
        self.resume()
    }

    /// Suspends until `delay` from now, then attempts one resume: before
    /// the new execution time has come, which is the common case, nothing
    /// runs and `None` is returned.
    pub fn delay(&mut self, delay_secs: u64, delay_nanos: u32) -> (r: Option<Coroutine<F>>)
        ensures
            final(self).status == Status::Suspend || final(self).status == Status::Finished,
            r is Some ==> r == Some(*final(self)) && final(self).status == Status::Finished,
    {
        self.set_delay(delay_secs, delay_nanos);
        self.set_status(Status::Suspend);
        self.resume()
    }

    /// As `delay`, with the parameter overridden first.
    pub fn delay_with(
        &mut self,
        delay_secs: u64,
        delay_nanos: u32,
        param: Option<usize>,
    ) -> (r: Option<Coroutine<F>>)
        ensures
            final(self).param == param,
            final(self).status == Status::Suspend || final(self).status == Status::Finished,
            r is Some ==> r == Some(*final(self)) && final(self).status == Status::Finished,
    {
        self.set_delay(delay_secs, delay_nanos);
        self.set_status(Status::Suspend);
        self.resume_with(param)
    }

    /// Exits the coroutine: its status becomes `Exited` and its stack goes
    /// back to the pool it came from.
    pub fn exit(&mut self, reg: &mut StackPoolRegistry)
        requires
            old(reg).wf(),
            old(self).stack.wf(),
        ensures
            final(reg).wf(),
            final(reg).spec_sys() == old(reg).spec_sys(),
            *final(self) == (Coroutine { status: Status::Exited, ..*old(self) }),
            old(reg).using_of(old(self).stack.spec_len() as usize).contains(old(self).stack)
                ==> revert_found_transition(
                old(reg).pool_of(old(self).stack.spec_len() as usize),
                old(self).stack,
                final(reg).pool_of(old(self).stack.spec_len() as usize),
            ),
    {
        self.status = Status::Exited;
        crate::pools::revert(reg, self.stack);
    }

    pub fn get_id(&self) -> (r: usize)
        ensures
            r == self.id,
    {
        self.id
    }

    pub fn get_param(&self) -> (r: Option<usize>)
        ensures
            r == self.param,
    {
        self.param
    }

    pub fn set_param(&mut self, param: Option<usize>)
        ensures
            *final(self) == (Coroutine { param, ..*old(self) }),
    {
        self.param = param;
    }

    pub fn get_result(&self) -> (r: Option<usize>)
        ensures
            r == self.result,
    {
        self.result
    }

    pub fn set_result(&mut self, result: Option<usize>)
        ensures
            *final(self) == (Coroutine { result, ..*old(self) }),
    {
        self.result = result;
    }

    pub fn get_status(&self) -> (r: Status)
        ensures
            r == self.status,
    {
        self.status
    }

    pub fn set_status(&mut self, status: Status)
        ensures
            *final(self) == (Coroutine { status, ..*old(self) }),
    {
        self.status = status;
    }

    pub fn get_execute_time(&self) -> (r: u64)
        ensures
            r == self.exec_time,
    {
        self.exec_time
    }

    pub fn set_execute_time(&mut self, time: u64)
        ensures
            *final(self) == (Coroutine { exec_time: time, ..*old(self) }),
    {
        self.exec_time = time;
    }

    /// Sets the execution time to `delay` from the current wall clock; only
    /// the field changed is pinned down, the clock reading is not.
    pub fn set_delay(&mut self, delay_secs: u64, delay_nanos: u32)
        ensures
            *final(self) == (Coroutine { exec_time: final(self).exec_time, ..*old(self) }),
    {
        let time = get_timeout_time(delay_secs, delay_nanos);
        self.set_execute_time(time);
    }

    pub fn get_next(&self) -> (r: Option<usize>)
        ensures
            r == self.next,
    {
        self.next
    }

    /// Links the coroutine to run right after this one.
    pub fn set_next(&mut self, next: &Coroutine<F>)
        ensures
            *final(self) == (Coroutine { next: Some(next.id), ..*old(self) }),
    {
        self.next = Some(next.id);
    }

    pub fn has_next(&self) -> (r: bool)
        ensures
            r == (self.next is Some),
    {
        self.next.is_some()
    }

    pub fn get_entrance(&self) -> (r: Option<usize>)
        ensures
            r == self.entrance,
    {
        self.entrance
    }

    /// Marks the coroutine a chain returns to when this one finishes last.
    pub fn set_entrance(&mut self, entrance: &Coroutine<F>)
        ensures
            *final(self) == (Coroutine { entrance: Some(entrance.id), ..*old(self) }),
    {
        self.entrance = Some(entrance.id);
    }

    /// Records the scheduler the coroutine belongs to, by id.
    pub fn set_scheduler(&mut self, scheduler_id: usize)
        ensures
            *final(self) == (Coroutine { scheduler: Some(scheduler_id), ..*old(self) }),
    {
        self.scheduler = Some(scheduler_id);
    }
}

/// Where a coroutine with the given id sits in the slab; meaningful only
/// when one does.
pub open spec fn spec_find_by_id<F: UserFunction>(s: Seq<Coroutine<F>>, id: usize) -> int {
    choose|i: int| 0 <= i < s.len() && (#[trigger] s[i]).id == id
}

pub open spec fn has_id<F: UserFunction>(s: Seq<Coroutine<F>>, id: usize) -> bool {
    exists|i: int| 0 <= i < s.len() && (#[trigger] s[i]).id == id
}

/// Runs a chain of linked coroutines held in a slab: starting from the
/// coroutine with id `start`, each due, unfinished coroutine runs once and
/// control moves on along its `next` link; the chain ends at a missing
/// link, at an already finished or exited coroutine, or at one not yet due.
/// The ids are returned in the order the coroutines ran.
#[verifier::rlimit(100)]
#[verifier::spinoff_prover]
pub fn resume_chain<F: UserFunction>(
    coros: &mut Vec<Coroutine<F>>,
    start: usize,
    now: u64,
) -> (ran: Vec<usize>)
    requires
        forall|i: int, j: int|
            0 <= i < j < old(coros)@.len() ==> (#[trigger] old(coros)@[i]).id != (
            #[trigger] old(coros)@[j]).id,
    ensures
        final(coros)@.len() == old(coros)@.len(),
        forall|i: int|
            0 <= i < old(coros)@.len() ==> (#[trigger] final(coros)@[i]).id == old(coros)@[i].id,
        forall|i: int|
            0 <= i < old(coros)@.len() ==> (#[trigger] final(coros)@[i]) == old(coros)@[i]
                || runs_to(old(coros)@[i], final(coros)@[i]),
        forall|k: int| 0 <= k < ran@.len() ==> has_id(old(coros)@, #[trigger] ran@[k]),
        forall|k: int, i: int|
            0 <= k < ran@.len() && 0 <= i < old(coros)@.len() && (#[trigger] old(coros)@[i]).id
                == #[trigger] ran@[k] ==> final(coros)@[i].status == Status::Finished,
        ran@.len() > 0 ==> ran@[0] == start,
        forall|k: int, i: int|
            0 < k < ran@.len() && 0 <= i < old(coros)@.len() && (#[trigger] old(coros)@[i]).id
                == #[trigger] ran@[k - 1] ==> Some(ran@[k]) == old(coros)@[i].next,
        forall|i: int|
            0 <= i < old(coros)@.len() && (#[trigger] old(coros)@[i]).id == start
                && old(coros)@[i].status != Status::Finished
                && old(coros)@[i].status != Status::Exited
                && old(coros)@[i].exec_time <= now ==> ran@.len() > 0,
        forall|i: int, j: int|
            ran@.len() > 0 && 0 <= i < old(coros)@.len() && (#[trigger] old(coros)@[i]).id
                == ran@[ran@.len() - 1] && 0 <= j < old(coros)@.len()
                && Some((#[trigger] old(coros)@[j]).id) == old(coros)@[i].next
                ==> final(coros)@[j].status == Status::Finished
                || final(coros)@[j].status == Status::Exited
                || old(coros)@[j].exec_time > now,
{
    let ghost pre = coros@;
    let mut ran: Vec<usize> = Vec::new();
    let ghost mut pos: Seq<int> = Seq::empty();
    let mut target: usize = start;
    let n = coros.len();
    loop
        invariant_except_break
            pos.len() > 0 ==> Some(target) == pre[pos[pos.len() - 1]].next,
        invariant
            pre == old(coros)@,
            n == coros@.len(),
            coros@.len() == pre.len(),
            forall|i: int, j: int|
                0 <= i < j < pre.len() ==> (#[trigger] pre[i]).id != (#[trigger] pre[j]).id,
            forall|i: int| 0 <= i < pre.len() ==> (#[trigger] coros@[i]).id == pre[i].id,
            forall|i: int|
                0 <= i < pre.len() ==> (#[trigger] coros@[i]) == pre[i] || runs_to(
                    pre[i],
                    coros@[i],
                ),
            pos.len() == ran@.len(),
            forall|k: int|
                0 <= k < pos.len() ==> 0 <= #[trigger] pos[k] < pre.len() && pre[pos[k]].id
                    == ran@[k] && coros@[pos[k]].status == Status::Finished,
            forall|k1: int, k2: int| 0 <= k1 < k2 < pos.len() ==> pos[k1] != pos[k2],
            forall|i: int|
                0 <= i < pre.len() && !pos.contains(i) ==> (#[trigger] coros@[i]) == pre[i],
            ran@.len() <= n,
            ran@.len() == 0 ==> target == start,
            ran@.len() > 0 ==> ran@[0] == start,
            forall|k: int| 0 < k < pos.len() ==> Some(#[trigger] ran@[k]) == pre[pos[k - 1]].next,
        ensures
            pre == old(coros)@,
            coros@.len() == pre.len(),
            forall|i: int| 0 <= i < pre.len() ==> (#[trigger] coros@[i]).id == pre[i].id,
            forall|i: int|
                0 <= i < pre.len() ==> (#[trigger] coros@[i]) == pre[i] || runs_to(
                    pre[i],
                    coros@[i],
                ),
            pos.len() == ran@.len(),
            forall|k: int|
                0 <= k < pos.len() ==> 0 <= #[trigger] pos[k] < pre.len() && pre[pos[k]].id
                    == ran@[k] && coros@[pos[k]].status == Status::Finished,
            ran@.len() > 0 ==> ran@[0] == start,
            forall|k: int| 0 < k < pos.len() ==> Some(#[trigger] ran@[k]) == pre[pos[k - 1]].next,
            ran@.len() == 0 ==> forall|i: int|
                0 <= i < pre.len() && (#[trigger] pre[i]).id == start ==> pre[i].status
                    == Status::Finished || pre[i].status == Status::Exited || pre[i].exec_time
                    > now,
            forall|i: int, j: int|
                ran@.len() > 0 && 0 <= i < pre.len() && (#[trigger] pre[i]).id == ran@[ran@.len()
                    - 1] && 0 <= j < pre.len() && Some((#[trigger] pre[j]).id) == pre[i].next
                    ==> coros@[j].status == Status::Finished || coros@[j].status == Status::Exited
                    || pre[j].exec_time > now,
        decreases n - ran@.len(),
    {
        let idx = match find_index_by_id(coros, target) {
            Some(i) => i,
            None => {
                proof {
                    assert forall|i: int|
                        0 <= i < pre.len() implies (#[trigger] pre[i]).id != target by {
                        assert(coros@[i].id == pre[i].id);
                    }
                    if ran@.len() > 0 {
                        let lastpos = pos[pos.len() - 1];
                        lemma_stop_link_vacuous(pre, ran@, pos, target, now, coros@);
                    }
                }
                break ;
            },
        };
        if coros[idx].get_status() == Status::Finished || coros[idx].get_status() == Status::Exited
            || now < coros[idx].get_execute_time() {
            proof {
                assert(coros@[idx as int].exec_time == pre[idx as int].exec_time) by {
                    if coros@[idx as int] != pre[idx as int] {
                        assert(runs_to(pre[idx as int], coros@[idx as int]));
                    }
                }
                if ran@.len() == 0 {
                    assert(!pos.contains(idx as int));
                    assert(coros@[idx as int] == pre[idx as int]);
                    assert forall|i: int|
                        0 <= i < pre.len() && (#[trigger] pre[i]).id == start implies pre[i].status
                        == Status::Finished || pre[i].status == Status::Exited || pre[i].exec_time
                        > now by {
                        if i != idx as int {
                            assert(pre[i].id != pre[idx as int].id);
                        }
                    }
                } else {
                    let lastpos = pos[pos.len() - 1];
                    assert(Some(target) == pre[lastpos].next);
                    assert forall|i: int, j: int|
                        0 <= i < pre.len() && (#[trigger] pre[i]).id == ran@[ran@.len() - 1] && 0
                            <= j < pre.len() && Some((#[trigger] pre[j]).id) == pre[i].next implies
                        coros@[j].status == Status::Finished || coros@[j].status == Status::Exited
                            || pre[j].exec_time > now by {
                        assert(pre[lastpos].id == ran@[ran@.len() - 1]);
                        if i != lastpos {
                            assert(pre[i].id != pre[lastpos].id);
                        }
                        assert(pre[j].id == target);
                        assert(pre[idx as int].id == target);
                        if j != idx as int {
                            assert(pre[j].id != pre[idx as int].id);
                        }
                    }
                }
            }
            break ;
        }
        let ghost mid = coros@;
        proof {
            assert forall|k: int| 0 <= k < pos.len() implies pos[k] != idx as int by {
                assert(coros@[pos[k]].status == Status::Finished);
            }
            assert(coros@[idx as int] == pre[idx as int]);
        }
        let mut c = coros.remove(idx);
        c.invoke();
        let next_link = c.next;
        coros.insert(idx, c);
        ran.push(target);
        proof {
            let prev_pos = pos;
            pos = pos.push(idx as int);
            assert(coros@ =~= mid.update(idx as int, c));
            assert(runs_to(pre[idx as int], c));
            lemma_positions_bounded(pos, pre.len() as int);
            assert forall|i: int|
                0 <= i < pre.len() && !pos.contains(i) implies (#[trigger] coros@[i]) == pre[i] by {
                assert(pos[pos.len() - 1] == idx as int);
                assert(pos.contains(idx as int));
                assert(coros@[i] == mid[i]);
                if prev_pos.contains(i) {
                    let k = choose|k: int| 0 <= k < prev_pos.len() && prev_pos[k] == i;
                    assert(pos[k] == i);
                    assert(pos.contains(i));
                }
            }
        }
        match next_link {
            Some(nid) => {
                target = nid;
            },
            None => {
                proof {
                    assert(pos[pos.len() - 1] == idx as int);
                    assert(ran@[ran@.len() - 1] == pre[idx as int].id);
                    assert(pre[idx as int].next is None);
                    assert forall|i: int, j: int|
                        0 <= i < pre.len() && (#[trigger] pre[i]).id == ran@[ran@.len() - 1] && 0
                            <= j < pre.len() && Some((#[trigger] pre[j]).id) == pre[i].next implies
                        coros@[j].status == Status::Finished || coros@[j].status == Status::Exited
                            || pre[j].exec_time > now by {
                        if i != idx as int {
                            assert(pre[i].id != pre[idx as int].id);
                        }
                        assert(pre[i].next is None);
                        assert(false);
                    }
                }
                break ;
            },
        }
    }
    proof {
        assert forall|k: int| 0 <= k < ran@.len() implies has_id(pre, #[trigger] ran@[k]) by {
            assert(0 <= pos[k] < pre.len() && pre[pos[k]].id == ran@[k]);
        }
        assert forall|k: int, i: int|
            0 <= k < ran@.len() && 0 <= i < pre.len() && (#[trigger] pre[i]).id
                == #[trigger] ran@[k] implies coros@[i].status == Status::Finished by {
            assert(pre[pos[k]].id == ran@[k]);
            if i != pos[k] {
                assert(pre[i].id != pre[pos[k]].id);
            }
        }
        assert forall|k: int, i: int|
            0 < k < ran@.len() && 0 <= i < pre.len() && (#[trigger] pre[i]).id
                == #[trigger] ran@[k - 1] implies Some(ran@[k]) == pre[i].next by {
            assert(pre[pos[k - 1]].id == ran@[k - 1]);
            if i != pos[k - 1] {
                assert(pre[i].id != pre[pos[k - 1]].id);
            }
        }
    }
    ran
}

/// The position of the coroutine with the given id, if the slab holds one.
fn find_index_by_id<F: UserFunction>(coros: &Vec<Coroutine<F>>, id: usize) -> (r: Option<usize>)
    ensures
        r matches Some(i) ==> i < coros@.len() && coros@[i as int].id == id,
        r is None ==> forall|i: int| 0 <= i < coros@.len() ==> (#[trigger] coros@[i]).id != id,
{
    let n = coros.len();
    let mut idx: usize = 0;
    while idx < n
        invariant
            n == coros@.len(),
            0 <= idx <= n,
            forall|i: int| 0 <= i < idx ==> (#[trigger] coros@[i]).id != id,
        decreases n - idx,
    {
        if coros[idx].id == id {
            return Some(idx);
        }
        idx += 1;
    }
    None
}

/// When the walk's pending target names no slab coroutine, the last-run
/// coroutine's link points outside the slab, so the stop clause holds
/// vacuously.
proof fn lemma_stop_link_vacuous<F: UserFunction>(
    pre: Seq<Coroutine<F>>,
    ran: Seq<usize>,
    pos: Seq<int>,
    target: usize,
    now: u64,
    cur: Seq<Coroutine<F>>,
)
    requires
        ran.len() > 0,
        pos.len() == ran.len(),
        forall|i: int, j: int|
            0 <= i < j < pre.len() ==> (#[trigger] pre[i]).id != (#[trigger] pre[j]).id,
        forall|k: int|
            0 <= k < pos.len() ==> 0 <= #[trigger] pos[k] < pre.len() && pre[pos[k]].id == ran[k],
        Some(target) == pre[pos[pos.len() - 1]].next,
        forall|i: int| 0 <= i < pre.len() ==> (#[trigger] pre[i]).id != target,
    ensures
        forall|i: int, j: int|
            0 <= i < pre.len() && (#[trigger] pre[i]).id == ran[ran.len() - 1] && 0 <= j
                < pre.len() && Some((#[trigger] pre[j]).id) == pre[i].next ==> cur[j].status
                == Status::Finished || cur[j].status == Status::Exited || pre[j].exec_time > now,
{
    let lastpos = pos[pos.len() - 1];
    assert forall|i: int, j: int|
        0 <= i < pre.len() && (#[trigger] pre[i]).id == ran[ran.len() - 1] && 0 <= j < pre.len()
            && Some((#[trigger] pre[j]).id) == pre[i].next implies cur[j].status
        == Status::Finished || cur[j].status == Status::Exited || pre[j].exec_time > now by {
        assert(pre[lastpos].id == ran[ran.len() - 1]);
        if i != lastpos {
            assert(pre[i].id != pre[lastpos].id);
        }
        assert(pre[j].id == target);
        assert(false);
    }
}

/// Distinct positions inside a slab of `n` slots number at most `n`.
proof fn lemma_positions_bounded(pos: Seq<int>, n: int)
    requires
        0 <= n,
        forall|k: int| 0 <= k < pos.len() ==> 0 <= #[trigger] pos[k] < n,
        forall|k1: int, k2: int| 0 <= k1 < k2 < pos.len() ==> pos[k1] != pos[k2],
    ensures
        pos.len() <= n,
{
    broadcast use vstd::seq_lib::seq_to_set_is_finite;
    broadcast use vstd::set::group_set_axioms;

    assert(pos.no_duplicates());
    pos.unique_seq_to_set();
    vstd::set_lib::lemma_int_range(0, n);
    let range = vstd::set_lib::set_int_range(0, n);
    assert forall|x: int| pos.to_set().contains(x) implies range.contains(x) by {
        let k = choose|k: int| 0 <= k < pos.len() && pos[k] == x;
        assert(0 <= pos[k] < n);
    }
    assert(pos.to_set().subset_of(range));
    vstd::set_lib::lemma_len_subset(pos.to_set(), range);
}

} // verus!
