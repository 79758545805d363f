use vstd::prelude::*;

use std::collections::VecDeque;
use vstd::multiset::Multiset;

use crate::coroutine::Coroutine;
use crate::coroutine::Status;
use crate::coroutine::UserFunction;
use crate::ids::IdGenerator;
use crate::timer::TimerList;
use crate::timer::get_timeout_time;
use crate::timer::insert_transition;
use crate::timer::lemma_insert_items;
use crate::timer::timer_items;

verus! {

/// The ids of a row of coroutines, as a bag.
pub open spec fn ids_of<F: UserFunction>(s: Seq<Coroutine<F>>) -> Multiset<usize> {
    s.map_values(|c: Coroutine<F>| c.id).to_multiset()
}

/// What a coroutine accepted into the ready FIFO looks like there.
pub open spec fn as_ready<F: UserFunction>(sched_id: usize, c: Coroutine<F>) -> Coroutine<F> {
    Coroutine { status: Status::Ready, scheduler: Some(sched_id), ..c }
}

/// What a coroutine filed into the suspend list under `time` looks like
/// there.
pub open spec fn as_suspended<F: UserFunction>(
    sched_id: usize,
    time: u64,
    c: Coroutine<F>,
) -> Coroutine<F> {
    Coroutine { exec_time: time, status: Status::Suspend, scheduler: Some(sched_id), ..c }
}

/// The two outcomes of submitting `c`: not yet due, filed into the suspend
/// list under its execution time; or due, appended to the ready FIFO.
pub open spec fn submit_outcome<F: UserFunction>(
    pre: Scheduler<F>,
    post: Scheduler<F>,
    c: Coroutine<F>,
) -> bool {
    ||| (post.ready_seq() == pre.ready_seq() && insert_transition(
        pre.suspend_list(),
        post.suspend_list(),
        c.exec_time,
        as_suspended(pre.spec_id(), c.exec_time, c),
    ))
    ||| (post.suspend_list() == pre.suspend_list() && post.ready_seq() == pre.ready_seq().push(
        as_ready(pre.spec_id(), c),
    ))
}

/// A single-thread cooperative scheduler: a FIFO of ready coroutines, a
/// deadline-keyed list of suspended ones, the id of the one running, and
/// the FIFO of finished ones.  `system_call` and `copy_stack` are reserved
/// and stay empty.
pub struct Scheduler<F: UserFunction> {
    id: usize,
    ready: VecDeque<Coroutine<F>>,
    running: Option<usize>,
    suspend: TimerList<Coroutine<F>>,
    system_call: VecDeque<Coroutine<F>>,
    copy_stack: VecDeque<Coroutine<F>>,
    finished: VecDeque<Coroutine<F>>,
    submitted: Ghost<Multiset<usize>>,
}

impl<F: UserFunction> Scheduler<F> {
    pub closed spec fn spec_id(self) -> usize {
        self.id
    }

    pub closed spec fn ready_seq(self) -> Seq<Coroutine<F>> {
        self.ready@
    }

    pub closed spec fn spec_running(self) -> Option<usize> {
        self.running
    }

    pub closed spec fn suspend_list(self) -> TimerList<Coroutine<F>> {
        self.suspend
    }

    /// Every suspended coroutine, earliest deadline first.
    pub open spec fn suspend_items(self) -> Seq<Coroutine<F>> {
        timer_items(self.suspend_list())
    }

    pub closed spec fn system_call_seq(self) -> Seq<Coroutine<F>> {
        self.system_call@
    }

    pub closed spec fn copy_stack_seq(self) -> Seq<Coroutine<F>> {
        self.copy_stack@
    }

    pub closed spec fn finished_seq(self) -> Seq<Coroutine<F>> {
        self.finished@
    }

    /// Every id ever accepted by `submit` and its kin.
    pub closed spec fn spec_submitted(self) -> Multiset<usize> {
        self.submitted@
    }

    /// The bag of ids across every collection the scheduler keeps.
    pub open spec fn all_ids(self) -> Multiset<usize> {
        ids_of(self.ready_seq()).add(ids_of(self.suspend_items())).add(
            ids_of(self.system_call_seq()),
        ).add(ids_of(self.copy_stack_seq())).add(ids_of(self.finished_seq()))
    }

    /// Well-formedness, the scheduler's standing promises: deadlines in the
    /// suspend list strictly ascend; outside a pass nothing is marked
    /// running; the reserved queues are empty; every queue holds coroutines
    /// in the status the queue stands for, suspended ones filed under their
    /// own execution time; and the bag of ids across all queues is exactly
    /// the bag of ids ever submitted — nothing is lost, nothing invented.
    pub open spec fn wf(self) -> bool {
        &&& self.suspend_list().wf()
        &&& self.spec_running() is None
        &&& self.system_call_seq().len() == 0
        &&& self.copy_stack_seq().len() == 0
        &&& forall|i: int|
            0 <= i < self.ready_seq().len() ==> (#[trigger] self.ready_seq()[i]).status
                == Status::Ready && self.ready_seq()[i].stack.wf()
        &&& forall|i: int|
            0 <= i < self.finished_seq().len() ==> (#[trigger] self.finished_seq()[i]).status
                == Status::Finished
        &&& forall|i: int, j: int|
            0 <= i < self.suspend_list().entries_seq().len() && 0 <= j < (
            #[trigger] self.suspend_list().entries_seq()[i]).items().len() ==> (
            #[trigger] self.suspend_list().entries_seq()[i].items()[j]).status == Status::Suspend
                && self.suspend_list().entries_seq()[i].items()[j].exec_time
                == self.suspend_list().entries_seq()[i].spec_time()
                && self.suspend_list().entries_seq()[i].items()[j].stack.wf()
        &&& self.all_ids() == self.spec_submitted()
    }

    /// An empty scheduler under a fresh id of the `"scheduler"` category.
    pub fn new(ids: &mut IdGenerator) -> (r: Scheduler<F>)
        requires
            old(ids).wf(),
        ensures
            final(ids).wf(),
            r.wf(),
            r.spec_id() == old(ids).spec_next("scheduler"@),
            r.ready_seq().len() == 0,
            r.suspend_list().entries_seq().len() == 0,
            r.finished_seq().len() == 0,
            r.spec_submitted() == Multiset::<usize>::empty(),
    {
        let id = ids.next_id("scheduler");
        let r = Scheduler {
            id,
            ready: VecDeque::new(),
            running: None,
            suspend: TimerList::new(),
            system_call: VecDeque::new(),
            copy_stack: VecDeque::new(),
            finished: VecDeque::new(),
            submitted: Ghost(Multiset::empty()),
        };
        proof {
            lemma_ids_empty::<F>();
            assert(r.suspend_items() =~= Seq::<Coroutine<F>>::empty());
            assert(r.all_ids() =~= Multiset::<usize>::empty());
        }
        r
    }

    /// Files a coroutine to sleep until `time`: it is marked `Suspend`,
    /// bound to this scheduler, and put into the suspend list under `time`.
    pub fn execute_at(&mut self, time: u64, c: Coroutine<F>)
        requires
            old(self).wf(),
            c.stack.wf(),
        ensures
            final(self).wf(),
            final(self).spec_id() == old(self).spec_id(),
            final(self).spec_submitted() == old(self).spec_submitted().insert(c.id),
            final(self).ready_seq() == old(self).ready_seq(),
            final(self).finished_seq() == old(self).finished_seq(),
            insert_transition(
                old(self).suspend_list(),
                final(self).suspend_list(),
                time,
                as_suspended(old(self).spec_id(), time, c),
            ),
    {
        let mut c = c;
        c.set_execute_time(time);
        c.set_status(Status::Suspend);
        c.set_scheduler(self.id);
        let ghost c2 = c;
        let ghost pre = *self;
        self.suspend.insert(time, c);
        proof {
            self.submitted = Ghost(self.submitted@.insert(c2.id));
            lemma_insert_items(pre.suspend_list(), self.suspend_list(), time, c2);
            lemma_ids_perm(
                self.suspend_items(),
                pre.suspend_items().push(c2),
                pre.suspend_items(),
                c2,
            );
            lemma_suspend_statuses(pre, *self, time, c2);
            assert(self.all_ids() =~= pre.all_ids().insert(c2.id));
        }
    }

    /// Accepts a coroutine at the moment `now`: one whose execution time
    /// has not come sleeps in the suspend list; one that is due is marked
    /// `Ready` and joins the back of the ready FIFO.  Either way it is
    /// bound to this scheduler and counted as submitted.
    pub fn submit_at(&mut self, now: u64, c: Coroutine<F>)
        requires
            old(self).wf(),
            c.stack.wf(),
        ensures
            final(self).wf(),
            final(self).spec_id() == old(self).spec_id(),
            final(self).spec_submitted() == old(self).spec_submitted().insert(c.id),
            final(self).finished_seq() == old(self).finished_seq(),
            now < c.exec_time ==> final(self).ready_seq() == old(self).ready_seq()
                && insert_transition(
                old(self).suspend_list(),
                final(self).suspend_list(),
                c.exec_time,
                as_suspended(old(self).spec_id(), c.exec_time, c),
            ),
            now >= c.exec_time ==> final(self).suspend_list() == old(self).suspend_list()
                && final(self).ready_seq() == old(self).ready_seq().push(
                as_ready(old(self).spec_id(), c),
            ),
    {
        if now < c.get_execute_time() {
            self.execute_at(c.get_execute_time(), c);
            return ;
        }
        let mut c = c;
        c.set_status(Status::Ready);
        c.set_scheduler(self.id);
        let ghost c2 = c;
        let ghost pre = *self;
        self.ready.push_back(c);
        proof {
            self.submitted = Ghost(self.submitted@.insert(c2.id));
            lemma_ids_push(pre.ready_seq(), c2);
            assert(self.all_ids() =~= pre.all_ids().insert(c2.id));
        }
    }

    /// Accepts a coroutine at the current wall clock, as `submit_at` does
    /// at a given moment: it lands in `ready` exactly when the clock
    /// reading was at or past its execution time, else in `suspend` under
    /// that time.
    pub fn submit(&mut self, c: Coroutine<F>)
        requires
            old(self).wf(),
            c.stack.wf(),
        ensures
            final(self).wf(),
            final(self).spec_id() == old(self).spec_id(),
            final(self).spec_submitted() == old(self).spec_submitted().insert(c.id),
            final(self).finished_seq() == old(self).finished_seq(),
            submit_outcome(*old(self), *final(self), c),
    {
        let t = crate::timer::now();
        self.submit_at(t, c)
    }

    /// Accepts a coroutine as `submit` does.
    pub fn execute(&mut self, c: Coroutine<F>)
        requires
            old(self).wf(),
            c.stack.wf(),
        ensures
            final(self).wf(),
            final(self).spec_id() == old(self).spec_id(),
            final(self).spec_submitted() == old(self).spec_submitted().insert(c.id),
            final(self).finished_seq() == old(self).finished_seq(),
            submit_outcome(*old(self), *final(self), c),
    {
        self.submit(c)
    }

    /// Files a coroutine to sleep for the given duration from now: its
    /// execution time becomes the deadline the clock reading yields, and it
    /// sleeps in the suspend list under that time.
    pub fn delay(&mut self, delay_secs: u64, delay_nanos: u32, c: Coroutine<F>)
        requires
            old(self).wf(),
            c.stack.wf(),
        ensures
            final(self).wf(),
            final(self).spec_id() == old(self).spec_id(),
            final(self).spec_submitted() == old(self).spec_submitted().insert(c.id),
            final(self).ready_seq() == old(self).ready_seq(),
            final(self).finished_seq() == old(self).finished_seq(),
            exists|t: u64|
                insert_transition(
                    old(self).suspend_list(),
                    final(self).suspend_list(),
                    t,
                    as_suspended(old(self).spec_id(), t, c),
                ),
    {
        let time = get_timeout_time(delay_secs, delay_nanos);
        self.execute_at(time, c);
    }

    /// The ready FIFO.
    pub fn get_ready(&self) -> (r: &VecDeque<Coroutine<F>>)
        ensures
            r@ == self.ready_seq(),
    {
        &self.ready
    }

    /// The suspend list.
    pub fn get_suspend(&self) -> (r: &TimerList<Coroutine<F>>)
        ensures
            *r == self.suspend_list(),
    {
        &self.suspend
    }

    /// The finished FIFO.
    pub fn get_finished(&self) -> (r: &VecDeque<Coroutine<F>>)
        ensures
            r@ == self.finished_seq(),
    {
        &self.finished
    }

    pub fn get_id(&self) -> (r: usize)
        ensures
            r == self.spec_id(),
    {
        self.id
    }
}

/// Where the prefix of slots due at or before `now` ends, scanning from
/// position `i`.
pub open spec fn due_count_from(times: Seq<u64>, now: u64, i: int) -> int
    decreases times.len() - i,
{
    if i < 0 || i >= times.len() {
        i
    } else if times[i] > now {
        i
    } else {
        due_count_from(times, now, i + 1)
    }
}

/// How many suspend slots are due at or before `now`.
pub open spec fn due_count<F: UserFunction>(l: TimerList<Coroutine<F>>, now: u64) -> int {
    due_count_from(l.times(), now, 0)
}

/// A row of coroutines, every one marked `Ready`.
pub open spec fn promote_marked<F: UserFunction>(s: Seq<Coroutine<F>>) -> Seq<Coroutine<F>> {
    s.map_values(|c: Coroutine<F>| Coroutine { status: Status::Ready, ..c })
}

/// The coroutines of a row due to run at `now`.
pub open spec fn due_of<F: UserFunction>(s: Seq<Coroutine<F>>, now: u64) -> Seq<Coroutine<F>> {
    s.filter(|c: Coroutine<F>| c.exec_time <= now)
}

/// The coroutines of a row whose time has not come at `now`.
pub open spec fn late_of<F: UserFunction>(s: Seq<Coroutine<F>>, now: u64) -> Seq<Coroutine<F>> {
    s.filter(|c: Coroutine<F>| c.exec_time > now)
}

/// The ready row after entrance marking: with two or more coroutines ready,
/// the last one learns to return to the first.
pub open spec fn mark_entrance_spec<F: UserFunction>(s: Seq<Coroutine<F>>) -> Seq<Coroutine<F>> {
    if s.len() >= 2 {
        s.update(s.len() - 1, Coroutine { entrance: Some(s[0].id), ..s.last() })
    } else {
        s
    }
}

/// The coroutines promoted out of the suspend list at `now`, in deadline
/// order, kept in arrival order within one deadline, marked `Ready`.
pub open spec fn promoted_of<F: UserFunction>(pre: Scheduler<F>, now: u64) -> Seq<Coroutine<F>> {
    promote_marked(
        crate::timer::concat_entry_items(
            pre.suspend_list().entries_seq().take(due_count(pre.suspend_list(), now)),
        ),
    )
}

/// The run queue a scheduling pass at `now` works through: the promoted
/// coroutines ahead of the previously ready ones, entrance marked.
pub open spec fn queue_of<F: UserFunction>(pre: Scheduler<F>, now: u64) -> Seq<Coroutine<F>> {
    mark_entrance_spec(promoted_of(pre, now) + pre.ready_seq())
}

/// The whole visible effect of the dispatch loop at `now` on a scheduler
/// whose run queue is `pre.ready_seq()`: the due coroutines run in FIFO
/// order and land, finished, in the returned row and the finished FIFO; the
/// rest move to the suspend list under their own execution times; nothing
/// stays ready.
pub open spec fn do_schedule_transition<F: UserFunction>(
    pre: Scheduler<F>,
    post: Scheduler<F>,
    out: Seq<Coroutine<F>>,
    now: u64,
) -> bool {
    &&& post.ready_seq().len() == 0
    &&& out.len() == due_of(pre.ready_seq(), now).len()
    &&& (forall|j: int|
        0 <= j < out.len() ==> crate::coroutine::runs_to(
            due_of(pre.ready_seq(), now)[j],
            #[trigger] out[j],
        ))
    &&& post.finished_seq() == pre.finished_seq() + out
    &&& ids_of(post.suspend_items()) == ids_of(pre.suspend_items()).add(
        ids_of(late_of(pre.ready_seq(), now)),
    )
}

/// The whole visible effect of one scheduling pass at `now`: overdue
/// coroutines are promoted ahead of the ready ones, the resulting queue is
/// entrance marked and dispatched as `do_schedule_transition` says.
pub open spec fn try_schedule_transition<F: UserFunction>(
    pre: Scheduler<F>,
    post: Scheduler<F>,
    out: Seq<Coroutine<F>>,
    now: u64,
) -> bool {
    let q = queue_of(pre, now);
    &&& post.ready_seq().len() == 0
    &&& out.len() == due_of(q, now).len()
    &&& (forall|j: int|
        0 <= j < out.len() ==> crate::coroutine::runs_to(due_of(q, now)[j], #[trigger] out[j]))
    &&& post.finished_seq() == pre.finished_seq() + out
    &&& ids_of(post.suspend_items()) == ids_of(
        crate::timer::concat_entry_items(
            pre.suspend_list().entries_seq().skip(due_count(pre.suspend_list(), now)),
        ),
    ).add(ids_of(late_of(q, now)))
}

impl<F: UserFunction> Scheduler<F> {
    /// Promotes every suspended coroutine whose deadline has passed: the
    /// due prefix of the suspend list empties into the front of the ready
    /// FIFO, deadline order kept, each coroutine marked `Ready`, ahead of
    /// everything already ready.
    pub fn check_ready_at(&mut self, now: u64)
        requires
            old(self).wf(),
        ensures
            final(self).wf(),
            final(self).spec_id() == old(self).spec_id(),
            final(self).spec_submitted() == old(self).spec_submitted(),
            final(self).finished_seq() == old(self).finished_seq(),
            final(self).suspend_list().entries_seq() == old(self).suspend_list().entries_seq().skip(
                due_count(old(self).suspend_list(), now),
            ),
            final(self).ready_seq() == promoted_of(*old(self), now) + old(self).ready_seq(),
    {
        let ghost pre = *self;
        let ghost l0 = pre.suspend_list().entries_seq();
        let ghost t0 = pre.suspend_list().times();
        let ghost k = due_count(pre.suspend_list(), now);
        let mut promoted: VecDeque<Coroutine<F>> = VecDeque::new();
        let ghost mut j: int = 0;
        loop
            invariant
                pre == *old(self),
                pre.wf(),
                0 <= j <= l0.len(),
                self.spec_id() == pre.spec_id(),
                self.spec_submitted() == pre.spec_submitted(),
                self.ready_seq() == pre.ready_seq(),
                self.finished_seq() == pre.finished_seq(),
                self.system_call_seq() == pre.system_call_seq(),
                self.copy_stack_seq() == pre.copy_stack_seq(),
                self.spec_running() is None,
                self.suspend_list().entries_seq() == l0.skip(j),
                self.suspend_list().wf(),
                l0 == pre.suspend_list().entries_seq(),
                t0 == pre.suspend_list().times(),
                k == due_count(pre.suspend_list(), now),
                due_count_from(t0, now, j) == k,
                promoted@ == promote_marked(crate::timer::concat_entry_items(l0.take(j))),
            ensures
                j == k,
                self.spec_id() == pre.spec_id(),
                self.spec_submitted() == pre.spec_submitted(),
                self.ready_seq() == pre.ready_seq(),
                self.finished_seq() == pre.finished_seq(),
                self.system_call_seq() == pre.system_call_seq(),
                self.copy_stack_seq() == pre.copy_stack_seq(),
                self.spec_running() is None,
                self.suspend_list().entries_seq() == l0.skip(k),
                self.suspend_list().wf(),
                promoted@ == promote_marked(crate::timer::concat_entry_items(l0.take(k))),
            decreases l0.len() - j,
        {
            let stop = match self.suspend.front() {
                Some(e) => now < e.get_time(),
                None => true,
            };
            if stop {
                proof {
                    if j < l0.len() {
                        assert(l0.skip(j).len() > 0);
                        assert(l0.skip(j)[0] == l0[j]);
                        assert(t0[j] > now);
                    }
                    assert(due_count_from(t0, now, j) == j);
                }
                break ;
            }
            let mut entry = match self.suspend.pop_front() {
                Some(e) => e,
                None => {
                    proof {
                        assert(false);
                    }
                    break ;
                },
            };
            proof {
                assert(l0.skip(j)[0] == l0[j]);
                assert(entry == l0[j]);
                assert(t0[j] <= now);
                assert(self.suspend_list().entries_seq() =~= l0.skip(j + 1));
            }
            let ghost b0 = entry.items();
            let ghost base = promoted@;
            let ghost mut m: int = 0;
            loop
                invariant
                    0 <= m <= b0.len(),
                    entry.items() == b0.skip(m),
                    promoted@ == base + promote_marked(b0.take(m)),
                ensures
                    m == b0.len(),
                    promoted@ == base + promote_marked(b0.take(m)),
                decreases b0.len() - m,
            {
                let mut c = match entry.pop_front() {
                    Some(c) => c,
                    None => {
                        proof {
                            assert(b0.skip(m).len() == 0);
                            assert(m == b0.len());
                        }
                        break ;
                    },
                };
                c.set_status(Status::Ready);
                promoted.push_back(c);
                proof {
                    assert(b0.skip(m)[0] == b0[m]);
                    assert(entry.items() =~= b0.skip(m + 1));
                    assert(promote_marked(b0.take(m + 1)) =~= promote_marked(b0.take(m)).push(
                        (Coroutine { status: Status::Ready, ..b0[m] }),
                    ));
                    m = m + 1;
                }
            }
            proof {
                assert(b0.take(m) =~= b0);
                lemma_concat_take_snoc(l0, j);
                assert(promote_marked(crate::timer::concat_entry_items(l0.take(j)) + b0)
                    =~= promote_marked(crate::timer::concat_entry_items(l0.take(j)))
                    + promote_marked(b0));
                j = j + 1;
            }
        }
        let ghost mid = *self;
        promoted.append(&mut self.ready);
        self.ready = promoted;
        proof {
            assert(self.ready_seq() == promoted_of(pre, now) + pre.ready_seq());
            assert(self.suspend_items() == crate::timer::concat_entry_items(l0.skip(k)));
            crate::timer::lemma_concat_split(l0, k);
            lemma_ids_concat(
                crate::timer::concat_entry_items(l0.take(k)),
                crate::timer::concat_entry_items(l0.skip(k)),
            );
            lemma_ids_concat(promoted_of(pre, now), pre.ready_seq());
            lemma_ids_same(
                promoted_of(pre, now),
                crate::timer::concat_entry_items(l0.take(k)),
            );
            assert(self.all_ids() =~= pre.all_ids());
            assert forall|i: int|
                0 <= i < self.ready_seq().len() implies (#[trigger] self.ready_seq()[i]).status
                == Status::Ready && self.ready_seq()[i].stack.wf() by {
                if i < promoted_of(pre, now).len() {
                    assert(self.ready_seq()[i] == promoted_of(pre, now)[i]);
                    let inner = crate::timer::concat_entry_items(l0.take(k));
                    assert(promoted_of(pre, now)[i] == (Coroutine {
                        status: Status::Ready,
                        ..inner[i]
                    }));
                    lemma_concat_member_facts(pre, l0, k, i);
                } else {
                    assert(self.ready_seq()[i] == pre.ready_seq()[i - promoted_of(
                        pre,
                        now,
                    ).len()]);
                }
            }
            assert forall|a: int, b: int|
                0 <= a < self.suspend_list().entries_seq().len() && 0 <= b < (
                #[trigger] self.suspend_list().entries_seq()[a]).items().len() implies (
            #[trigger] self.suspend_list().entries_seq()[a].items()[b]).status == Status::Suspend
                && self.suspend_list().entries_seq()[a].items()[b].exec_time
                == self.suspend_list().entries_seq()[a].spec_time()
                && self.suspend_list().entries_seq()[a].items()[b].stack.wf() by {
                assert(self.suspend_list().entries_seq()[a] == l0[a + k]);
            }
        }
    }

    /// With two or more coroutines ready, records the head's id as the
    /// tail's entrance, so that a chain ending at the tail can come back to
    /// where the pass began.
    pub fn mark_entrance(&mut self)
        requires
            old(self).wf(),
        ensures
            final(self).wf(),
            final(self).spec_id() == old(self).spec_id(),
            final(self).spec_submitted() == old(self).spec_submitted(),
            final(self).finished_seq() == old(self).finished_seq(),
            final(self).suspend_list() == old(self).suspend_list(),
            final(self).ready_seq() == mark_entrance_spec(old(self).ready_seq()),
    {
        let ghost pre = *self;
        if self.ready.len() >= 2 {
            let head_id = self.ready[0].get_id();
            let mut back = match self.ready.pop_back() {
                Some(c) => c,
                None => {
                    proof {
                        assert(false);
                    }
                    return ;
                },
            };
            back.entrance = Some(head_id);
            self.ready.push_back(back);
            proof {
                assert(self.ready_seq() =~= mark_entrance_spec(pre.ready_seq()));
                lemma_ids_same(self.ready_seq(), pre.ready_seq());
                assert(self.all_ids() =~= pre.all_ids());
                assert forall|i: int|
                    0 <= i < self.ready_seq().len() implies (#[trigger] self.ready_seq()[i]).status
                    == Status::Ready && self.ready_seq()[i].stack.wf() by {
                    if i < self.ready_seq().len() - 1 {
                        assert(self.ready_seq()[i] == pre.ready_seq()[i]);
                    } else {
                        assert(pre.ready_seq()[i].status == Status::Ready);
                    }
                }
            }
        }
    }

    /// Dispatches the ready FIFO once at `now`: every due coroutine runs in
    /// order, lands finished in the returned row and the finished FIFO, and
    /// gives its stack back to its pool; every coroutine found not yet due
    /// moves to the suspend list under its own execution time.  The ready
    /// FIFO ends empty.
    #[verifier::rlimit(100)]
    #[verifier::spinoff_prover]
    pub fn do_schedule_at(
        &mut self,
        pools: &mut crate::pools::StackPoolRegistry,
        now: u64,
    ) -> (out: VecDeque<Coroutine<F>>)
        requires
            old(self).wf(),
            old(pools).wf(),
        ensures
            final(self).wf(),
            final(pools).wf(),
            final(pools).spec_sys() == old(pools).spec_sys(),
            final(self).spec_id() == old(self).spec_id(),
            final(self).spec_submitted() == old(self).spec_submitted(),
            do_schedule_transition(*old(self), *final(self), out@, now),
    {
        let ghost pre = *self;
        let ghost r0 = pre.ready_seq();
        let mut out: VecDeque<Coroutine<F>> = VecDeque::new();
        let n = self.ready.len();
        let mut i: usize = 0;
        proof {
            reveal(Seq::filter);
            assert(r0.take(0) =~= Seq::<Coroutine<F>>::empty());
            assert(late_of(r0.take(0), now) =~= Seq::<Coroutine<F>>::empty());
            assert(due_of(r0.take(0), now) =~= Seq::<Coroutine<F>>::empty());
            lemma_ids_empty::<F>();
            assert(ids_of(pre.suspend_items()).add(ids_of(late_of(r0.take(0), now))) =~= ids_of(
                pre.suspend_items(),
            ));
            assert(pre.finished_seq() + out@ =~= pre.finished_seq());
            assert(r0.skip(0) =~= r0);
        }
        while i < n
            invariant
                pre == *old(self),
                pre.wf(),
                pools.wf(),
                pools.spec_sys() == old(pools).spec_sys(),
                n == r0.len(),
                0 <= i <= n,
                r0 == pre.ready_seq(),
                self.spec_id() == pre.spec_id(),
                self.spec_submitted() == pre.spec_submitted(),
                self.system_call_seq() == pre.system_call_seq(),
                self.copy_stack_seq() == pre.copy_stack_seq(),
                self.spec_running() is None,
                self.ready_seq() == r0.skip(i as int),
                self.suspend_list().wf(),
                forall|a: int, b: int|
                    0 <= a < self.suspend_list().entries_seq().len() && 0 <= b < (
                    #[trigger] self.suspend_list().entries_seq()[a]).items().len() ==> (
                    #[trigger] self.suspend_list().entries_seq()[a].items()[b]).status
                        == Status::Suspend && self.suspend_list().entries_seq()[a].items()[b].exec_time
                        == self.suspend_list().entries_seq()[a].spec_time()
                        && self.suspend_list().entries_seq()[a].items()[b].stack.wf(),
                forall|a: int|
                    0 <= a < self.finished_seq().len() ==> (
                    #[trigger] self.finished_seq()[a]).status == Status::Finished,
                out@.len() == due_of(r0.take(i as int), now).len(),
                forall|j: int|
                    0 <= j < out@.len() ==> crate::coroutine::runs_to(
                        due_of(r0.take(i as int), now)[j],
                        #[trigger] out@[j],
                    ),
                self.finished_seq() == pre.finished_seq() + out@,
                ids_of(self.suspend_items()) == ids_of(pre.suspend_items()).add(
                    ids_of(late_of(r0.take(i as int), now)),
                ),
                self.all_ids() == self.spec_submitted(),
            decreases n - i,
        {
            let ghost sstart = *self;
            let mut c = match self.ready.pop_front() {
                Some(c) => c,
                None => {
                    proof {
                        assert(r0.skip(i as int).len() > 0);
                    }
                    vstd::pervasive::unreached()
                },
            };
            let ghost smid = *self;
            proof {
                assert(r0.skip(i as int)[0] == r0[i as int]);
                assert(c == r0[i as int]);
                assert(self.ready_seq() =~= r0.skip(i as int + 1));
                lemma_ids_pop_front(r0.skip(i as int));
                assert(r0.skip(i as int).drop_first() =~= r0.skip(i as int + 1));
                assert(sstart.all_ids() =~= smid.all_ids().insert(r0[i as int].id));
                lemma_filter_step(r0, i as int, now);
            }
            if now < c.get_execute_time() {
                c.set_status(Status::Suspend);
                let ghost c2 = c;
                let ghost smid2 = *self;
                self.suspend.insert(c.get_execute_time(), c);
                proof {
                    lemma_insert_items(
                        smid2.suspend_list(),
                        self.suspend_list(),
                        c2.exec_time,
                        c2,
                    );
                    lemma_ids_perm(
                        self.suspend_items(),
                        smid2.suspend_items().push(c2),
                        smid2.suspend_items(),
                        c2,
                    );
                    lemma_suspend_statuses2(smid2, *self, c2.exec_time, c2);
                    lemma_ids_push(late_of(r0.take(i as int), now), r0[i as int]);
                    assert(ids_of(self.suspend_items()) == ids_of(smid2.suspend_items()).insert(
                        c2.id,
                    ));
                    assert(c2.id == r0[i as int].id);
                    assert(late_of(r0.take(i as int + 1), now) == late_of(
                        r0.take(i as int),
                        now,
                    ).push(r0[i as int]));
                    assert(ids_of(self.suspend_items()) =~= ids_of(pre.suspend_items()).add(
                        ids_of(late_of(r0.take(i as int + 1), now)),
                    ));
                    assert(self.all_ids() =~= smid.all_ids().insert(c2.id));
                    assert(self.all_ids() =~= sstart.all_ids());
                    assert(self.all_ids() =~= self.spec_submitted());
                }
            } else {
                self.running = Some(c.get_id());
                c.invoke();
                self.running = None;
                self.finished.push_back(c);
                out.push_back(c);
                let mut tmp = c;
                tmp.exit(pools);
                proof {
                    assert(crate::coroutine::runs_to(r0[i as int], c));
                    lemma_ids_push(smid.finished_seq(), c);
                    assert(due_of(r0.take(i as int + 1), now) =~= due_of(
                        r0.take(i as int),
                        now,
                    ).push(r0[i as int]));
                    assert forall|j: int|
                        0 <= j < out@.len() implies crate::coroutine::runs_to(
                        due_of(r0.take(i as int + 1), now)[j],
                        #[trigger] out@[j],
                    ) by {
                        if j < out@.len() - 1 {
                            assert(due_of(r0.take(i as int + 1), now)[j] == due_of(
                                r0.take(i as int),
                                now,
                            )[j]);
                        } else {
                            assert(due_of(r0.take(i as int + 1), now)[j] == r0[i as int]);
                        }
                    }
                    assert(self.finished_seq() =~= pre.finished_seq() + out@);
                    assert(self.all_ids() =~= smid.all_ids().insert(c.id));
                    assert(self.all_ids() =~= sstart.all_ids());
                    assert(self.all_ids() =~= self.spec_submitted());
                }
            }
            i += 1;
        }
        proof {
            assert(r0.take(n as int) =~= r0);
            assert(self.ready_seq().len() == 0);
        }
        out
    }

    /// One scheduling pass at the moment `now`: promotion of the overdue,
    /// entrance marking, dispatch.  What comes back are the coroutines that
    /// finished during the pass, in the order they ran: promoted overdue
    /// work first, then the previously ready, FIFO within each.
    pub fn try_schedule_at(
        &mut self,
        pools: &mut crate::pools::StackPoolRegistry,
        now: u64,
    ) -> (out: VecDeque<Coroutine<F>>)
        requires
            old(self).wf(),
            old(pools).wf(),
        ensures
            final(self).wf(),
            final(pools).wf(),
            final(pools).spec_sys() == old(pools).spec_sys(),
            final(self).spec_id() == old(self).spec_id(),
            final(self).spec_submitted() == old(self).spec_submitted(),
            try_schedule_transition(*old(self), *final(self), out@, now),
    {
        let ghost pre = *self;
        self.check_ready_at(now);
        self.mark_entrance();
        let ghost mid = *self;
        let out = self.do_schedule_at(pools, now);
        proof {
            assert(mid.ready_seq() == queue_of(pre, now));
            assert(mid.suspend_list().entries_seq() == pre.suspend_list().entries_seq().skip(
                due_count(pre.suspend_list(), now),
            ));
        }
        out
    }

    /// One scheduling pass at the current wall clock: for the reading the
    /// clock gave, the pass behaves exactly as `try_schedule_at` at that
    /// moment.
    pub fn try_schedule(&mut self, pools: &mut crate::pools::StackPoolRegistry) -> (out: VecDeque<
        Coroutine<F>,
    >)
        requires
            old(self).wf(),
            old(pools).wf(),
        ensures
            final(self).wf(),
            final(pools).wf(),
            final(pools).spec_sys() == old(pools).spec_sys(),
            final(self).spec_id() == old(self).spec_id(),
            final(self).spec_submitted() == old(self).spec_submitted(),
            exists|t: u64| try_schedule_transition(*old(self), *final(self), out@, t),
    {
        let t = crate::timer::now();
        self.try_schedule_at(pools, t)
    }
}

/// Outside a running pass, the bag of coroutine ids across the ready FIFO,
/// the suspend slots, the reserved queues and the finished FIFO is exactly
/// the bag of ids ever submitted: the scheduler loses none and invents
/// none.
pub proof fn lemma_conservation<F: UserFunction>(s: Scheduler<F>)
    requires
        s.wf(),
    ensures
        s.all_ids() == s.spec_submitted(),
{
}

/// The suspend list's deadlines are in strictly ascending order.
pub proof fn lemma_suspend_sorted<F: UserFunction>(s: Scheduler<F>)
    requires
        s.wf(),
    ensures
        forall|i: int, j: int|
            0 <= i < j < s.suspend_list().entries_seq().len() ==> (
            #[trigger] s.suspend_list().entries_seq()[i]).spec_time() < (
            #[trigger] s.suspend_list().entries_seq()[j]).spec_time(),
{
}

/// After a scheduling pass nothing remains ready: in particular no
/// coroutine due at the pass's moment is still waiting in the ready FIFO.
pub proof fn lemma_pass_drains_ready<F: UserFunction>(
    pre: Scheduler<F>,
    post: Scheduler<F>,
    out: Seq<Coroutine<F>>,
    now: u64,
)
    requires
        try_schedule_transition(pre, post, out, now),
    ensures
        post.ready_seq().len() == 0,
        forall|i: int|
            0 <= i < post.ready_seq().len() ==> !((#[trigger] post.ready_seq()[i]).exec_time
                <= now),
{
}

/// A row of coroutines that are all due passes the due filter whole.
proof fn lemma_filter_all_due<F: UserFunction>(s: Seq<Coroutine<F>>, now: u64)
    requires
        forall|i: int| 0 <= i < s.len() ==> (#[trigger] s[i]).exec_time <= now,
    ensures
        due_of(s, now) == s,
    decreases s.len(),
{
    reveal(Seq::filter);
    if s.len() == 0 {
    } else {
        lemma_filter_all_due(s.drop_last(), now);
        assert(due_of(s, now) =~= s);
    }
}

/// With nothing suspended and every ready coroutine due, one pass finishes
/// them all: the returned row has one finished coroutine for each ready
/// one, in FIFO order, with id and parameter kept.
pub proof fn lemma_all_due_finish<F: UserFunction>(
    pre: Scheduler<F>,
    post: Scheduler<F>,
    out: Seq<Coroutine<F>>,
    now: u64,
)
    requires
        try_schedule_transition(pre, post, out, now),
        pre.suspend_list().entries_seq().len() == 0,
        forall|i: int| 0 <= i < pre.ready_seq().len() ==> (#[trigger] pre.ready_seq()[i]).exec_time
            <= now,
    ensures
        out.len() == pre.ready_seq().len(),
        forall|j: int|
            0 <= j < out.len() ==> (#[trigger] out[j]).id == pre.ready_seq()[j].id && out[j].status
                == Status::Finished && out[j].param == pre.ready_seq()[j].param,
{
    let q = queue_of(pre, now);
    assert(pre.suspend_list().entries_seq().take(due_count(pre.suspend_list(), now)) =~= Seq::<
        crate::timer::TimerEntry<Coroutine<F>>,
    >::empty());
    assert(promoted_of(pre, now) =~= Seq::<Coroutine<F>>::empty());
    assert(promoted_of(pre, now) + pre.ready_seq() =~= pre.ready_seq());
    assert(q == mark_entrance_spec(pre.ready_seq()));
    assert(q.len() == pre.ready_seq().len());
    assert forall|i: int| 0 <= i < q.len() implies (#[trigger] q[i]).exec_time <= now && q[i].id
        == pre.ready_seq()[i].id && q[i].param == pre.ready_seq()[i].param by {
        if q.len() >= 2 && i == q.len() - 1 {
            assert(q[i] == (Coroutine {
                entrance: Some(pre.ready_seq()[0].id),
                ..pre.ready_seq()[i]
            }));
        } else {
            assert(q[i] == pre.ready_seq()[i]);
        }
    }
    lemma_filter_all_due(q, now);
    assert forall|j: int|
        0 <= j < out.len() implies (#[trigger] out[j]).id == pre.ready_seq()[j].id && out[j].status
        == Status::Finished && out[j].param == pre.ready_seq()[j].param by {
        assert(crate::coroutine::runs_to(due_of(q, now)[j], out[j]));
        assert(due_of(q, now)[j] == q[j]);
    }
}

/// Promoted coroutines come from well-formed suspend slots, so they carry
/// well-formed stacks.
proof fn lemma_concat_member_facts<F: UserFunction>(
    pre: Scheduler<F>,
    l0: Seq<crate::timer::TimerEntry<Coroutine<F>>>,
    k: int,
    i: int,
)
    requires
        pre.wf(),
        l0 == pre.suspend_list().entries_seq(),
        0 <= k <= l0.len(),
        0 <= i < crate::timer::concat_entry_items(l0.take(k)).len(),
    ensures
        crate::timer::concat_entry_items(l0.take(k))[i].stack.wf(),
{
    let es = l0.take(k);
    crate::timer::lemma_concat_member(es, i);
    let (a, b): (int, int) = choose|a: int, b: int|
        0 <= a < es.len() && 0 <= b < es[a].items().len() && crate::timer::concat_entry_items(es)[i]
            == (#[trigger] es[a].items()[b]);
    assert(es[a] == l0[a]);
    assert(l0[a].items()[b].stack.wf());
}

/// Taking one coroutine off the front takes exactly its id out of the bag.
proof fn lemma_ids_pop_front<F: UserFunction>(s: Seq<Coroutine<F>>)
    requires
        s.len() > 0,
    ensures
        ids_of(s) == ids_of(s.drop_first()).insert(s[0].id),
{
    broadcast use vstd::seq_lib::group_to_multiset_ensures;

    let f = |x: Coroutine<F>| x.id;
    assert(s.map_values(f) =~= seq![s[0].id] + s.drop_first().map_values(f));
    vstd::seq_lib::lemma_multiset_commutative(seq![s[0].id], s.drop_first().map_values(f));
    assert(seq![s[0].id].to_multiset() =~= Multiset::<usize>::empty().insert(s[0].id)) by {
        assert(seq![s[0].id] =~= Seq::<usize>::empty().push(s[0].id));
        assert(Seq::<usize>::empty().to_multiset() =~= Multiset::<usize>::empty());
    }
    assert(ids_of(s) =~= ids_of(s.drop_first()).insert(s[0].id));
}

/// Joining two rows joins their bags of ids.
proof fn lemma_ids_concat<F: UserFunction>(a: Seq<Coroutine<F>>, b: Seq<Coroutine<F>>)
    ensures
        ids_of(a + b) == ids_of(a).add(ids_of(b)),
{
    let f = |x: Coroutine<F>| x.id;
    assert((a + b).map_values(f) =~= a.map_values(f) + b.map_values(f));
    vstd::seq_lib::lemma_multiset_commutative(a.map_values(f), b.map_values(f));
}

/// Rows that agree on length and ids carry the same bag of ids.
proof fn lemma_ids_same<F: UserFunction>(s1: Seq<Coroutine<F>>, s2: Seq<Coroutine<F>>)
    requires
        s1.len() == s2.len(),
        forall|i: int| 0 <= i < s1.len() ==> (#[trigger] s1[i]).id == s2[i].id,
    ensures
        ids_of(s1) == ids_of(s2),
{
    let f = |x: Coroutine<F>| x.id;
    assert(s1.map_values(f) =~= s2.map_values(f));
}

/// The slots due through position `j` concatenate one slot at a time.
proof fn lemma_concat_take_snoc<T>(es: Seq<crate::timer::TimerEntry<T>>, j: int)
    requires
        0 <= j < es.len(),
    ensures
        crate::timer::concat_entry_items(es.take(j + 1)) == crate::timer::concat_entry_items(
            es.take(j),
        ) + es[j].items(),
{
    reveal_with_fuel(crate::timer::concat_entry_items, 3);
    crate::timer::lemma_concat_split(es.take(j + 1), j);
    assert(es.take(j + 1).take(j) =~= es.take(j));
    assert(es.take(j + 1).skip(j) =~= seq![es[j]]);
    assert(crate::timer::concat_entry_items(seq![es[j]]) =~= es[j].items()) by {
        assert(seq![es[j]].drop_first() =~= Seq::<crate::timer::TimerEntry<T>>::empty());
        assert(es[j].items() + Seq::<T>::empty() =~= es[j].items());
    }
}

/// Growing the examined prefix by one coroutine grows its due or its late
/// part by that coroutine, and only that.
proof fn lemma_filter_step<F: UserFunction>(s: Seq<Coroutine<F>>, i: int, now: u64)
    requires
        0 <= i < s.len(),
    ensures
        s[i].exec_time <= now ==> due_of(s.take(i + 1), now) == due_of(s.take(i), now).push(s[i])
            && late_of(s.take(i + 1), now) == late_of(s.take(i), now),
        s[i].exec_time > now ==> late_of(s.take(i + 1), now) == late_of(s.take(i), now).push(s[i])
            && due_of(s.take(i + 1), now) == due_of(s.take(i), now),
{
    reveal(Seq::filter);
    assert(s.take(i + 1).drop_last() =~= s.take(i));
    assert(s.take(i + 1).last() == s[i]);
}

/// Filing one suspended coroutine keeps every slot's status and deadline
/// facts; stated over the suspend lists alone.
proof fn lemma_suspend_statuses2<F: UserFunction>(
    pre: Scheduler<F>,
    post: Scheduler<F>,
    time: u64,
    c: Coroutine<F>,
)
    requires
        c.status == Status::Suspend,
        c.exec_time == time,
        c.stack.wf(),
        insert_transition(pre.suspend_list(), post.suspend_list(), time, c),
        pre.suspend_list().wf(),
        forall|i: int, j: int|
            0 <= i < pre.suspend_list().entries_seq().len() && 0 <= j < (
            #[trigger] pre.suspend_list().entries_seq()[i]).items().len() ==> (
            #[trigger] pre.suspend_list().entries_seq()[i].items()[j]).status == Status::Suspend
                && pre.suspend_list().entries_seq()[i].items()[j].exec_time
                == pre.suspend_list().entries_seq()[i].spec_time()
                && pre.suspend_list().entries_seq()[i].items()[j].stack.wf(),
    ensures
        forall|i: int, j: int|
            0 <= i < post.suspend_list().entries_seq().len() && 0 <= j < (
            #[trigger] post.suspend_list().entries_seq()[i]).items().len() ==> (
            #[trigger] post.suspend_list().entries_seq()[i].items()[j]).status == Status::Suspend
                && post.suspend_list().entries_seq()[i].items()[j].exec_time
                == post.suspend_list().entries_seq()[i].spec_time()
                && post.suspend_list().entries_seq()[i].items()[j].stack.wf(),
{
    let pl = pre.suspend_list();
    let ql = post.suspend_list();
    let s = pl.spec_slot(time);
    crate::timer::lemma_slot_in_range(pl.times(), time, 0);
    assert forall|i: int, j: int|
        0 <= i < ql.entries_seq().len() && 0 <= j < (
        #[trigger] ql.entries_seq()[i]).items().len() implies (
    #[trigger] ql.entries_seq()[i].items()[j]).status == Status::Suspend
        && ql.entries_seq()[i].items()[j].exec_time == ql.entries_seq()[i].spec_time()
        && ql.entries_seq()[i].items()[j].stack.wf() by {
        if s < pl.entries_seq().len() && pl.times()[s] == time {
            if i == s {
                assert(ql.entries_seq()[i].items() == pl.entries_seq()[s].items().push(c));
                if j < pl.entries_seq()[s].items().len() {
                    assert(pl.entries_seq()[s].items()[j].status == Status::Suspend);
                }
            } else {
                assert(ql.entries_seq()[i] == pl.entries_seq()[i]);
            }
        } else {
            if i == s {
                assert(ql.entries_seq()[i].items() == Seq::<Coroutine<F>>::empty().push(c));
            } else if i < s {
                assert(ql.entries_seq()[i] == pl.entries_seq()[i]);
            } else {
                assert(ql.entries_seq()[i] == pl.entries_seq()[i - 1]);
            }
        }
    }
}

/// Nothing has an id in an empty row.
proof fn lemma_ids_empty<F: UserFunction>()
    ensures
        ids_of(Seq::<Coroutine<F>>::empty()) == Multiset::<usize>::empty(),
{
    broadcast use vstd::seq_lib::group_to_multiset_ensures;

    assert(Seq::<Coroutine<F>>::empty().map_values(|c: Coroutine<F>| c.id) =~= Seq::<
        usize,
    >::empty());
    assert(Seq::<usize>::empty().to_multiset() =~= Multiset::<usize>::empty());
}

/// Appending one coroutine adds exactly its id to the bag.
proof fn lemma_ids_push<F: UserFunction>(s: Seq<Coroutine<F>>, c: Coroutine<F>)
    ensures
        ids_of(s.push(c)) == ids_of(s).insert(c.id),
{
    broadcast use vstd::seq_lib::group_to_multiset_ensures;

    assert(s.push(c).map_values(|x: Coroutine<F>| x.id) =~= s.map_values(
        |x: Coroutine<F>| x.id,
    ).push(c.id));
}

/// Rows with the same coroutines as bags carry the same ids as bags.
proof fn lemma_map_to_multiset_perm<F: UserFunction>(s1: Seq<Coroutine<F>>, s2: Seq<Coroutine<F>>)
    requires
        s1.to_multiset() == s2.to_multiset(),
    ensures
        ids_of(s1) == ids_of(s2),
    decreases s1.len(),
{
    broadcast use vstd::seq_lib::group_to_multiset_ensures;

    let f = |x: Coroutine<F>| x.id;
    if s1.len() == 0 {
        assert(s2.to_multiset().len() == 0);
        assert(s1.map_values(f) =~= s2.map_values(f));
    } else {
        let a = s1.last();
        let s1p = s1.drop_last();
        assert(s1 =~= s1p.push(a));
        assert(s1.to_multiset() == s1p.to_multiset().insert(a));
        assert(s2.to_multiset().count(a) > 0);
        assert(s2.contains(a));
        let k = choose|k: int| 0 <= k < s2.len() && s2[k] == a;
        let s2p = s2.remove(k);
        assert(s2p.to_multiset() == s2.to_multiset().remove(a));
        assert(s1p.to_multiset() =~= s2p.to_multiset());
        lemma_map_to_multiset_perm(s1p, s2p);
        assert(s1.map_values(f) =~= s1p.map_values(f).push(f(a)));
        assert(s1.map_values(f).to_multiset() == s1p.map_values(f).to_multiset().insert(f(a)));
        assert(s2p.map_values(f) =~= s2.map_values(f).remove(k));
        assert(s2.map_values(f)[k] == f(a));
        assert(s2.map_values(f).remove(k).to_multiset() == s2.map_values(f).to_multiset().remove(
            f(a),
        ));
        assert(s2.map_values(f).to_multiset().count(f(a)) > 0) by {
            assert(s2.map_values(f).contains(f(a)));
        }
        assert(ids_of(s1) =~= ids_of(s2));
    }
}

/// When a row's bag is another's plus one coroutine, its ids are the
/// other's plus that id.
proof fn lemma_ids_perm<F: UserFunction>(
    s1: Seq<Coroutine<F>>,
    s2: Seq<Coroutine<F>>,
    base: Seq<Coroutine<F>>,
    c: Coroutine<F>,
)
    requires
        s1.to_multiset() == base.to_multiset().insert(c),
        s2 == base.push(c),
    ensures
        ids_of(s1) == ids_of(base).insert(c.id),
{
    broadcast use vstd::seq_lib::group_to_multiset_ensures;

    assert(s2.to_multiset() == base.to_multiset().insert(c));
    lemma_map_to_multiset_perm(s1, s2);
    lemma_ids_push(base, c);
}

/// Filing one suspended coroutine keeps every slot's status and deadline
/// facts.
proof fn lemma_suspend_statuses<F: UserFunction>(
    pre: Scheduler<F>,
    post: Scheduler<F>,
    time: u64,
    c: Coroutine<F>,
)
    requires
        pre.wf(),
        c.status == Status::Suspend,
        c.exec_time == time,
        c.stack.wf(),
        insert_transition(pre.suspend_list(), post.suspend_list(), time, c),
        pre.suspend_list().wf(),
    ensures
        forall|i: int, j: int|
            0 <= i < post.suspend_list().entries_seq().len() && 0 <= j < (
            #[trigger] post.suspend_list().entries_seq()[i]).items().len() ==> (
            #[trigger] post.suspend_list().entries_seq()[i].items()[j]).status == Status::Suspend
                && post.suspend_list().entries_seq()[i].items()[j].exec_time
                == post.suspend_list().entries_seq()[i].spec_time()
                && post.suspend_list().entries_seq()[i].items()[j].stack.wf(),
{
    let pl = pre.suspend_list();
    let ql = post.suspend_list();
    let s = pl.spec_slot(time);
    crate::timer::lemma_slot_in_range(pl.times(), time, 0);
    assert forall|i: int, j: int|
        0 <= i < ql.entries_seq().len() && 0 <= j < (
        #[trigger] ql.entries_seq()[i]).items().len() implies (
    #[trigger] ql.entries_seq()[i].items()[j]).status == Status::Suspend
        && ql.entries_seq()[i].items()[j].exec_time == ql.entries_seq()[i].spec_time()
        && ql.entries_seq()[i].items()[j].stack.wf() by {
        if s < pl.entries_seq().len() && pl.times()[s] == time {
            if i == s {
                assert(ql.entries_seq()[i].items() == pl.entries_seq()[s].items().push(c));
                if j < pl.entries_seq()[s].items().len() {
                    assert(pl.entries_seq()[s].items()[j].status == Status::Suspend);
                }
            } else {
                assert(ql.entries_seq()[i] == pl.entries_seq()[i]);
            }
        } else {
            if i == s {
                assert(ql.entries_seq()[i].items() == Seq::<Coroutine<F>>::empty().push(c));
            } else if i < s {
                assert(ql.entries_seq()[i] == pl.entries_seq()[i]);
            } else {
                assert(ql.entries_seq()[i] == pl.entries_seq()[i - 1]);
            }
        }
    }
}

} // verus!
