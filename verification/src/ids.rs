use vstd::prelude::*;

verus! {

/// A process-wide source of ids, strictly increasing from 1 within each
/// string-keyed category.
pub struct IdGenerator {
    entries: Vec<(String, usize)>,
}

impl IdGenerator {
    pub closed spec fn entries_seq(self) -> Seq<(String, usize)> {
        self.entries@
    }

    /// Whether a category was used before.
    pub open spec fn has_key(self, key: Seq<char>) -> bool {
        exists|i: int|
            0 <= i < self.entries_seq().len() && (#[trigger] self.entries_seq()[i]).0@ == key
    }

    /// The position of a category; meaningful only when `has_key`.
    pub open spec fn spec_key_index(self, key: Seq<char>) -> int {
        choose|i: int|
            0 <= i < self.entries_seq().len() && (#[trigger] self.entries_seq()[i]).0@ == key
    }

    /// The id the next call for this category returns.
    pub open spec fn spec_next(self, key: Seq<char>) -> int {
        if self.has_key(key) {
            self.entries_seq()[self.spec_key_index(key)].1 as int
        } else {
            1
        }
    }

    /// Well-formedness: one slot per category, every pending id positive.
    pub closed spec fn wf(self) -> bool {
        &&& forall|i: int, j: int|
            0 <= i < j < self.entries_seq().len() ==> (#[trigger] self.entries_seq()[i]).0@ != (
            #[trigger] self.entries_seq()[j]).0@
        &&& forall|i: int|
            0 <= i < self.entries_seq().len() ==> (#[trigger] self.entries_seq()[i]).1 >= 1
    }

    pub fn new() -> (r: IdGenerator)
        ensures
            r.wf(),
            forall|key: Seq<char>| #[trigger] r.spec_next(key) == 1,
    {
        let r = IdGenerator { entries: Vec::new() };
        proof {
            assert(forall|key: Seq<char>| !r.has_key(key));
        }
        r
    }

    /// Hands out the next id of the category: 1 on first use, then one more
    /// each call until the counter would overflow, where it stays put.
    pub fn next_id(&mut self, key: &str) -> (r: usize)
        requires
            old(self).wf(),
        ensures
            final(self).wf(),
            r == old(self).spec_next(key@),
            final(self).spec_next(key@) == if old(self).spec_next(key@) < usize::MAX {
                old(self).spec_next(key@) + 1
            } else {
                old(self).spec_next(key@)
            },
            forall|other: Seq<char>|
                other != key@ ==> #[trigger] final(self).spec_next(other) == old(self).spec_next(
                    other,
                ),
    {
        let ghost pre = *self;
        let owned: String = key.to_owned();
        let n = self.entries.len();
        let mut i: usize = 0;
        while i < n
            invariant
                pre.wf(),
                pre == *old(self),
                *self == pre,
                owned@ == key@,
                n == self.entries_seq().len(),
                0 <= i <= n,
                forall|k: int| 0 <= k < i ==> (#[trigger] self.entries_seq()[k]).0@ != key@,
            decreases n - i,
        {
            if self.entries[i].0 == owned {
                proof {
                    lemma_key_index_is(pre, key@, i as int);
                }
                let mut entry = self.entries.remove(i);
                let current = entry.1;
                entry.1 = if current < usize::MAX {
                    current + 1
                } else {
                    current
                };
                self.entries.insert(i, entry);
                proof {
                    assert(self.entries_seq() =~= pre.entries_seq().update(i as int, entry));
                    lemma_key_index_is(*self, key@, i as int);
                    assert forall|other: Seq<char>| other != key@ implies #[trigger] self.spec_next(
                        other,
                    ) == pre.spec_next(other) by {
                        if pre.has_key(other) {
                            let j = pre.spec_key_index(other);
                            lemma_key_index_is(*self, other, j);
                        }
                        if self.has_key(other) {
                            let j = self.spec_key_index(other);
                            assert(pre.entries_seq()[j].0@ == other);
                        }
                    }
                }
                return current;
            }
            i += 1;
        }
        self.entries.push((owned, 2));
        proof {
            assert(self.entries_seq() =~= pre.entries_seq().push((owned, 2)));
            assert(!pre.has_key(key@));
            lemma_key_index_is(*self, key@, pre.entries_seq().len() as int);
            assert forall|other: Seq<char>| other != key@ implies #[trigger] self.spec_next(other)
                == pre.spec_next(other) by {
                if pre.has_key(other) {
                    let j = pre.spec_key_index(other);
                    lemma_key_index_is(*self, other, j);
                }
                if self.has_key(other) {
                    let j = self.spec_key_index(other);
                    assert(pre.entries_seq()[j].0@ == other);
                }
            }
        }
        1
    }
}

/// When slot `i` holds `key`, the unique index of `key` is `i`.
proof fn lemma_key_index_is(g: IdGenerator, key: Seq<char>, i: int)
    requires
        g.wf(),
        0 <= i < g.entries_seq().len(),
        g.entries_seq()[i].0@ == key,
    ensures
        g.has_key(key),
        g.spec_key_index(key) == i,
{
    assert(g.has_key(key));
    let j = g.spec_key_index(key);
    if j != i {
        assert(g.entries_seq()[i].0@ != g.entries_seq()[j].0@);
    }
}

} // verus!
