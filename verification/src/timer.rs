use vstd::prelude::*;

use std::collections::VecDeque;
use vstd::multiset::Multiset;

verus! {

pub const NANOS_PER_SEC: u64 = 1_000_000_000;

#[verifier::external_type_specification]
#[verifier::external_body]
pub struct ExSystemTime(std::time::SystemTime);

#[verifier::external_type_specification]
#[verifier::external_body]
pub struct ExSystemTimeError(std::time::SystemTimeError);

pub assume_specification[ std::time::SystemTime::now ]() -> std::time::SystemTime;

pub assume_specification[ std::time::SystemTime::duration_since ](
    t: &std::time::SystemTime,
    earlier: std::time::SystemTime,
) -> Result<core::time::Duration, std::time::SystemTimeError>;

pub assume_specification[ core::time::Duration::as_nanos ](d: &core::time::Duration) -> u128;

/// Relies on std::time::UNIX_EPOCH: the reference point wall-clock readings
/// are measured from.
#[verifier::external_body]
fn unix_epoch() -> std::time::SystemTime {
    std::time::UNIX_EPOCH
}

/// The wall clock in nanoseconds since the epoch, truncated to 64 bits; a
/// clock standing before the epoch reads 0.  Nothing is promised of the
/// value: the clock may move freely between two readings.
pub fn now() -> u64 {
    let t = std::time::SystemTime::now();
    match t.duration_since(unix_epoch()) {
        Ok(d) => {
            #[verifier::truncate]
            (d.as_nanos() as u64)
        },
        Err(_) => 0,
    }
}

/// What a duration of `secs` whole seconds and `nanos` leftover nanoseconds
/// amounts to in nanoseconds, saturating at the 64-bit limit.
pub open spec fn spec_dur_to_ns(secs: int, nanos: int) -> int {
    if secs * NANOS_PER_SEC + nanos > u64::MAX {
        u64::MAX as int
    } else {
        secs * NANOS_PER_SEC + nanos
    }
}

/// Converts a duration, given as its whole seconds and its fractional
/// nanoseconds, to nanoseconds, saturating at the 64-bit limit.
pub fn dur_to_ns(secs: u64, subsec_nanos: u32) -> (r: u64)
    ensures
        r == spec_dur_to_ns(secs as int, subsec_nanos as int),
{
    let base: u64 = if secs <= u64::MAX / NANOS_PER_SEC {
        proof {
            vstd::arithmetic::mul::lemma_mul_inequality(
                secs as int,
                (u64::MAX / NANOS_PER_SEC) as int,
                NANOS_PER_SEC as int,
            );
        }
        secs * NANOS_PER_SEC
    } else {
        proof {
            vstd::arithmetic::mul::lemma_mul_inequality(
                (u64::MAX / NANOS_PER_SEC + 1) as int,
                secs as int,
                NANOS_PER_SEC as int,
            );
        }
        u64::MAX
    };
    base.saturating_add(subsec_nanos as u64)
}

/// The moment `interval` nanoseconds after `now`, saturating at the 64-bit
/// limit.
pub open spec fn spec_timeout_at(now: int, secs: int, nanos: int) -> int {
    if now + spec_dur_to_ns(secs, nanos) > u64::MAX {
        u64::MAX as int
    } else {
        now + spec_dur_to_ns(secs, nanos)
    }
}

/// The deadline a duration from the given moment amounts to.
pub fn get_timeout_time_at(now: u64, secs: u64, subsec_nanos: u32) -> (r: u64)
    ensures
        r == spec_timeout_at(now as int, secs as int, subsec_nanos as int),
{
    now.saturating_add(dur_to_ns(secs, subsec_nanos))
}

/// The deadline a duration from the current wall clock amounts to.  The
/// clock reading itself is unconstrained; the arithmetic on it is that of
/// `get_timeout_time_at`.
pub fn get_timeout_time(secs: u64, subsec_nanos: u32) -> u64 {
    get_timeout_time_at(now(), secs, subsec_nanos)
}

/// A monotonic reading of the wall clock: `SystemTime` may step backwards,
/// so the clock remembers the highest reading it has handed out and never
/// reports an earlier moment again.
#[derive(Debug)]
pub struct Clock {
    last: u64,
}

impl Clock {
    /// The highest reading handed out so far.
    pub closed spec fn spec_last(self) -> u64 {
        self.last
    }

    pub fn new() -> (r: Clock)
        ensures
            r.spec_last() == 0,
    {
        Clock { last: 0 }
    }

    /// A reading of the wall clock that is never below any earlier reading
    /// of this clock: successive calls return non-decreasing values.
    pub fn now(&mut self) -> (r: u64)
        ensures
            r == final(self).spec_last(),
            old(self).spec_last() <= r,
    {
        let t = now();
        if t > self.last {
            self.last = t;
        }
        self.last
    }
}

/// One slot of a timer list: every value due at the same moment, oldest
/// first.
#[derive(Debug)]
pub struct TimerEntry<T> {
    time: u64,
    dequeue: VecDeque<T>,
}

impl<T> TimerEntry<T> {
    /// The moment this slot is due.
    pub closed spec fn spec_time(self) -> u64 {
        self.time
    }

    /// The pending values, oldest first.
    pub closed spec fn items(self) -> Seq<T> {
        self.dequeue@
    }

    /// An empty slot due at `time`.
    pub fn new(time: u64) -> (r: TimerEntry<T>)
        ensures
            r.spec_time() == time,
            r.items().len() == 0,
    {
        TimerEntry { time, dequeue: VecDeque::new() }
    }

    pub fn len(&self) -> (r: usize)
        ensures
            r == self.items().len(),
    {
        self.dequeue.len()
    }

    pub fn get_time(&self) -> (r: u64)
        ensures
            r == self.spec_time(),
    {
        self.time
    }

    /// Takes the oldest pending value.
    pub fn pop_front(&mut self) -> (r: Option<T>)
        ensures
            final(self).spec_time() == old(self).spec_time(),
            old(self).items().len() == 0 ==> r is None && final(self).items() == old(self).items(),
            old(self).items().len() > 0 ==> r == Some(old(self).items()[0]) && final(self).items()
                == old(self).items().drop_first(),
    {
        let r = self.dequeue.pop_front();
        proof {
            if old(self).items().len() > 0 {
                assert(final(self).items() =~= old(self).items().drop_first());
            }
        }
        r
    }

    /// Appends a value behind every pending one.
    pub fn push_back(&mut self, t: T)
        ensures
            final(self).spec_time() == old(self).spec_time(),
            final(self).items() == old(self).items().push(t),
    {
        self.dequeue.push_back(t)
    }
}

/// A deadline-ordered list of timer slots, earliest first, one slot per
/// distinct moment, no slot empty.
#[derive(Debug)]
pub struct TimerList<T> {
    dequeue: Vec<TimerEntry<T>>,
}

/// The index at which a slot due at `time` belongs in `times`, scanning
/// from position `i`: the first position at or after `i` whose time is not
/// earlier.
pub open spec fn spec_slot_from(times: Seq<u64>, time: u64, i: int) -> int
    decreases times.len() - i,
{
    if i < 0 || i >= times.len() {
        i
    } else if times[i] >= time {
        i
    } else {
        spec_slot_from(times, time, i + 1)
    }
}

/// Every value the slots of `es` hold, in slot order, oldest first within a
/// slot.
pub open spec fn concat_entry_items<T>(es: Seq<TimerEntry<T>>) -> Seq<T>
    decreases es.len(),
{
    if es.len() == 0 {
        Seq::<T>::empty()
    } else {
        es[0].items() + concat_entry_items(es.drop_first())
    }
}

/// Every pending value of a timer list, earliest slot first.
pub open spec fn timer_items<T>(l: TimerList<T>) -> Seq<T> {
    concat_entry_items(l.entries_seq())
}

/// Every concatenated value comes from some slot.
pub proof fn lemma_concat_member<T>(es: Seq<TimerEntry<T>>, i: int)
    requires
        0 <= i < concat_entry_items(es).len(),
    ensures
        exists|a: int, b: int|
            0 <= a < es.len() && 0 <= b < es[a].items().len() && concat_entry_items(es)[i] == (
            #[trigger] es[a].items()[b]),
    decreases es.len(),
{
    if es.len() == 0 {
    } else if i < es[0].items().len() {
        assert(concat_entry_items(es)[i] == es[0].items()[i]);
    } else {
        let rest = es.drop_first();
        let ii = i - es[0].items().len();
        lemma_concat_member(rest, ii);
        let (a, b): (int, int) = choose|a: int, b: int|
            0 <= a < rest.len() && 0 <= b < rest[a].items().len() && concat_entry_items(rest)[ii]
                == (#[trigger] rest[a].items()[b]);
        assert(es[a + 1].items()[b] == concat_entry_items(es)[i]);
    }
}

/// Splitting the slots splits their concatenated values.
pub proof fn lemma_concat_split<T>(es: Seq<TimerEntry<T>>, k: int)
    requires
        0 <= k <= es.len(),
    ensures
        concat_entry_items(es) == concat_entry_items(es.take(k)) + concat_entry_items(es.skip(k)),
    decreases k,
{
    if k == 0 {
        assert(es.take(0) =~= Seq::<TimerEntry<T>>::empty());
        assert(es.skip(0) =~= es);
        assert(concat_entry_items(es) =~= concat_entry_items(es.take(0)) + concat_entry_items(
            es.skip(0),
        ));
    } else {
        lemma_concat_split(es.drop_first(), k - 1);
        assert(es.take(k).drop_first() =~= es.drop_first().take(k - 1));
        assert(es.skip(k) =~= es.drop_first().skip(k - 1));
        assert(es[0].items() + (concat_entry_items(es.drop_first().take(k - 1))
            + concat_entry_items(es.skip(k))) =~= (es[0].items() + concat_entry_items(
            es.take(k).drop_first(),
        )) + concat_entry_items(es.skip(k)));
    }
}

/// Appending a value to the slot at `s` adds exactly that value to the
/// concatenated contents.
pub proof fn lemma_concat_update_push<T>(es: Seq<TimerEntry<T>>, s: int, e: TimerEntry<T>, t: T)
    requires
        0 <= s < es.len(),
        e.items() == es[s].items().push(t),
    ensures
        concat_entry_items(es.update(s, e)).to_multiset() == concat_entry_items(
            es,
        ).to_multiset().insert(t),
    decreases s,
{
    broadcast use vstd::seq_lib::group_to_multiset_ensures;

    let post = es.update(s, e);
    if s == 0 {
        assert(post.drop_first() =~= es.drop_first());
        assert(concat_entry_items(post) == es[0].items().push(t) + concat_entry_items(
            es.drop_first(),
        ));
        vstd::seq_lib::lemma_multiset_commutative(
            es[0].items().push(t),
            concat_entry_items(es.drop_first()),
        );
        vstd::seq_lib::lemma_multiset_commutative(es[0].items(), concat_entry_items(es.drop_first()));
        assert(es[0].items().push(t).to_multiset() == es[0].items().to_multiset().insert(t));
        assert(concat_entry_items(post).to_multiset() =~= concat_entry_items(
            es,
        ).to_multiset().insert(t));
    } else {
        lemma_concat_update_push(es.drop_first(), s - 1, e, t);
        assert(post.drop_first() =~= es.drop_first().update(s - 1, e));
        assert(post[0] == es[0]);
        vstd::seq_lib::lemma_multiset_commutative(
            post[0].items(),
            concat_entry_items(post.drop_first()),
        );
        vstd::seq_lib::lemma_multiset_commutative(es[0].items(), concat_entry_items(es.drop_first()));
        assert(concat_entry_items(post).to_multiset() =~= concat_entry_items(
            es,
        ).to_multiset().insert(t));
    }
}

/// Splicing a slot in at `s` adds exactly its values to the concatenated
/// contents.
pub proof fn lemma_concat_insert<T>(es: Seq<TimerEntry<T>>, s: int, e: TimerEntry<T>)
    requires
        0 <= s <= es.len(),
    ensures
        concat_entry_items(es.insert(s, e)).to_multiset() == concat_entry_items(
            es,
        ).to_multiset().add(e.items().to_multiset()),
    decreases s,
{
    broadcast use vstd::seq_lib::group_to_multiset_ensures;

    let post = es.insert(s, e);
    if s == 0 {
        assert(post.drop_first() =~= es);
        assert(post[0] == e);
        vstd::seq_lib::lemma_multiset_commutative(e.items(), concat_entry_items(es));
        assert(concat_entry_items(post).to_multiset() =~= concat_entry_items(es).to_multiset().add(
            e.items().to_multiset(),
        ));
    } else {
        lemma_concat_insert(es.drop_first(), s - 1, e);
        assert(post.drop_first() =~= es.drop_first().insert(s - 1, e));
        assert(post[0] == es[0]);
        vstd::seq_lib::lemma_multiset_commutative(
            post[0].items(),
            concat_entry_items(post.drop_first()),
        );
        vstd::seq_lib::lemma_multiset_commutative(es[0].items(), concat_entry_items(es.drop_first()));
        assert(concat_entry_items(post).to_multiset() =~= concat_entry_items(es).to_multiset().add(
            e.items().to_multiset(),
        ));
    }
}

/// Filing a value adds exactly it to a list's pending contents.
pub proof fn lemma_insert_items<T>(pre: TimerList<T>, post: TimerList<T>, time: u64, t: T)
    requires
        pre.wf(),
        insert_transition(pre, post, time, t),
    ensures
        timer_items(post).to_multiset() == timer_items(pre).to_multiset().insert(t),
{
    broadcast use vstd::seq_lib::group_to_multiset_ensures;

    let s = pre.spec_slot(time);
    lemma_slot_in_range(pre.times(), time, 0);
    if s < pre.entries_seq().len() && pre.times()[s] == time {
        assert(post.entries_seq() =~= pre.entries_seq().update(s, post.entries_seq()[s]));
        lemma_concat_update_push(pre.entries_seq(), s, post.entries_seq()[s], t);
    } else {
        assert(post.entries_seq() =~= pre.entries_seq().insert(s, post.entries_seq()[s]));
        lemma_concat_insert(pre.entries_seq(), s, post.entries_seq()[s]);
        assert(post.entries_seq()[s].items() =~= Seq::<T>::empty().push(t));
        assert(post.entries_seq()[s].items().to_multiset() =~= Multiset::<T>::empty().insert(t));
        assert(timer_items(post).to_multiset() =~= timer_items(pre).to_multiset().insert(t));
    }
}

/// The scan for a slot lands between the start and the end of the list.
pub proof fn lemma_slot_in_range(times: Seq<u64>, time: u64, i: int)
    requires
        0 <= i <= times.len(),
    ensures
        i <= spec_slot_from(times, time, i) <= times.len(),
    decreases times.len() - i,
{
    if i < times.len() && times[i] < time {
        lemma_slot_in_range(times, time, i + 1);
    }
}

/// The whole visible effect of filing `t` under `time`: the slot already
/// due at `time` gains `t` at its back, or a fresh one-value slot takes the
/// ordered position; every other slot stands as it was.
pub open spec fn insert_transition<T>(
    pre: TimerList<T>,
    post: TimerList<T>,
    time: u64,
    t: T,
) -> bool {
    let s = pre.spec_slot(time);
    if s < pre.entries_seq().len() && pre.times()[s] == time {
        &&& post.entries_seq().len() == pre.entries_seq().len()
        &&& post.entries_seq()[s].spec_time() == time
        &&& post.entries_seq()[s].items() == pre.entries_seq()[s].items().push(t)
        &&& forall|i: int|
            0 <= i < pre.entries_seq().len() && i != s ==> #[trigger] post.entries_seq()[i]
                == pre.entries_seq()[i]
    } else {
        &&& post.entries_seq().len() == pre.entries_seq().len() + 1
        &&& post.entries_seq()[s].spec_time() == time
        &&& post.entries_seq()[s].items() == Seq::<T>::empty().push(t)
        &&& forall|i: int|
            0 <= i < pre.entries_seq().len() ==> #[trigger] pre.entries_seq()[i]
                == post.entries_seq()[if i < s {
                i
            } else {
                i + 1
            }]
    }
}

impl<T> TimerList<T> {
    pub closed spec fn entries_seq(self) -> Seq<TimerEntry<T>> {
        self.dequeue@
    }

    /// The due moments, in list order.
    pub open spec fn times(self) -> Seq<u64> {
        Seq::new(self.entries_seq().len(), |i: int| self.entries_seq()[i].spec_time())
    }

    /// The index at which a slot due at `time` sits or would be inserted.
    pub open spec fn spec_slot(self, time: u64) -> int {
        spec_slot_from(self.times(), time, 0)
    }

    /// Deadlines strictly ascend, and no slot is empty.
    pub open spec fn wf(self) -> bool {
        &&& forall|i: int, j: int|
            0 <= i < j < self.entries_seq().len() ==> (#[trigger] self.entries_seq()[i]).spec_time()
                < (#[trigger] self.entries_seq()[j]).spec_time()
        &&& forall|i: int|
            0 <= i < self.entries_seq().len() ==> (#[trigger] self.entries_seq()[i]).items().len()
                > 0
    }

    pub fn new() -> (r: TimerList<T>)
        ensures
            r.wf(),
            r.entries_seq().len() == 0,
    {
        TimerList { dequeue: Vec::new() }
    }

    /// How many distinct due moments are pending.
    pub fn len(&self) -> (r: usize)
        ensures
            r == self.entries_seq().len(),
    {
        self.dequeue.len()
    }

    pub fn is_empty(&self) -> (r: bool)
        ensures
            r == (self.entries_seq().len() == 0),
    {
        self.dequeue.is_empty()
    }

    /// Files `t` under `time`: appended to the slot already due then, or
    /// into a fresh slot spliced in at the ordered position.
    pub fn insert(&mut self, time: u64, t: T)
        requires
            old(self).wf(),
        ensures
            final(self).wf(),
            insert_transition(*old(self), *final(self), time, t),
    {
        let ghost pre = *self;
        let n = self.dequeue.len();
        let mut idx: usize = 0;
        while idx < n && self.dequeue[idx].get_time() < time
            invariant
                *self == pre,
                n == self.entries_seq().len(),
                0 <= idx <= n,
                forall|k: int| 0 <= k < idx ==> pre.times()[k] < time,
                spec_slot_from(pre.times(), time, idx as int) == pre.spec_slot(time),
            decreases n - idx,
        {
            idx += 1;
        }
        proof {
            assert(pre.spec_slot(time) == idx as int);
        }
        if idx < n {
            let due = self.dequeue[idx].get_time();
            if due == time {
                let mut entry = self.dequeue.remove(idx);
                entry.push_back(t);
                self.dequeue.insert(idx, entry);
                proof {
                    assert(self.entries_seq() =~= pre.entries_seq().update(idx as int, entry));
                }
                return ;
            }
        }
        let mut entry = TimerEntry::new(time);
        entry.push_back(t);
        self.dequeue.insert(idx, entry);
        proof {
            assert(self.entries_seq() =~= pre.entries_seq().insert(idx as int, entry));
            assert(entry.items() =~= Seq::<T>::empty().push(t));
            let s = idx as int;
            assert(s < pre.entries_seq().len() ==> pre.times()[s] > time);
            assert forall|i: int, j: int|
                0 <= i < j < self.entries_seq().len() implies (
            #[trigger] self.entries_seq()[i]).spec_time() < (
            #[trigger] self.entries_seq()[j]).spec_time() by {
                if j < s {
                    assert(self.entries_seq()[i] == pre.entries_seq()[i]);
                    assert(self.entries_seq()[j] == pre.entries_seq()[j]);
                } else if j == s {
                    assert(self.entries_seq()[i] == pre.entries_seq()[i]);
                    assert(pre.times()[i] < time);
                } else if i < s {
                    assert(self.entries_seq()[i] == pre.entries_seq()[i]);
                    assert(self.entries_seq()[j] == pre.entries_seq()[j - 1]);
                    assert(pre.times()[i] < time);
                    assert(pre.times()[s] <= pre.entries_seq()[j - 1].spec_time());
                } else if i == s {
                    assert(self.entries_seq()[j] == pre.entries_seq()[j - 1]);
                    assert(pre.times()[s] <= pre.entries_seq()[j - 1].spec_time());
                } else {
                    assert(self.entries_seq()[i] == pre.entries_seq()[i - 1]);
                    assert(self.entries_seq()[j] == pre.entries_seq()[j - 1]);
                }
            }
        }
    }

    /// The earliest slot, if any is pending.
    pub fn front(&self) -> (r: Option<&TimerEntry<T>>)
        ensures
            self.entries_seq().len() == 0 ==> r is None,
            self.entries_seq().len() > 0 ==> r == Some(&self.entries_seq()[0]),
    {
        if self.dequeue.len() > 0 {
            Some(&self.dequeue[0])
        } else {
            None
        }
    }

    /// Removes and returns the earliest slot, if any is pending.
    pub fn pop_front(&mut self) -> (r: Option<TimerEntry<T>>)
        requires
            old(self).wf(),
        ensures
            final(self).wf(),
            old(self).entries_seq().len() == 0 ==> r is None && *final(self) == *old(self),
            old(self).entries_seq().len() > 0 ==> r == Some(old(self).entries_seq()[0])
                && final(self).entries_seq() == old(self).entries_seq().drop_first(),
    {
        if self.dequeue.len() > 0 {
            let e = self.dequeue.remove(0);
            proof {
                assert(final(self).entries_seq() =~= old(self).entries_seq().drop_first());
            }
            Some(e)
        } else {
            None
        }
    }
}

} // verus!
