//! The due-time queue: pending occurrences ordered by due instant.
//!
//! The queue keeps its entries sorted by due instant, earliest first, so
//! the head is always the next occurrence. Among entries with an equal
//! due instant the earlier insertion comes out first; this tie-break is
//! a deliberate, documented choice. The blocking wait and the lock that
//! producers and the dispatcher share live outside the library; they wrap
//! these operations without changing what they do to the entries.

use vstd::prelude::*;
use vstd::seq_lib::lemma_multiset_commutative;

use crate::datetime::DateTime;
use crate::task::Task;

verus! {

/// Inserting anywhere adds exactly one copy to the entries' multiset.
proof fn lemma_insert_to_multiset<A>(s: Seq<A>, i: int, x: A)
    requires
        0 <= i <= s.len(),
    ensures
        s.insert(i, x).to_multiset() == s.to_multiset().insert(x),
{
    broadcast use vstd::seq_lib::group_to_multiset_ensures;

    let left = s.subrange(0, i);
    let right = s.subrange(i, s.len() as int);
    assert(s.insert(i, x) =~= left.push(x) + right);
    assert(s =~= left + right);
    lemma_multiset_commutative(left.push(x), right);
    lemma_multiset_commutative(left, right);
    assert(left.push(x).to_multiset() == left.to_multiset().insert(x));
    assert(s.insert(i, x).to_multiset() =~= s.to_multiset().insert(x));
}

/// One pending occurrence: the instant a task is due, and the task itself.
pub struct QueuedTask {
    pub time: DateTime,
    pub task: Task,
}

/// A priority queue of pending occurrences, earliest due instant first.
pub struct Queue {
    entries: Vec<QueuedTask>,
}

impl View for Queue {
    type V = Seq<QueuedTask>;

    closed spec fn view(&self) -> Seq<QueuedTask> {
        self.entries@
    }
}

/// Where a new entry due at `t` belongs: behind every entry due at or
/// before `t`, ahead of every entry due after it.
fn insert_position(entries: &Vec<QueuedTask>, t: i64) -> (j: usize)
    requires
        forall|a: int, b: int|
            0 <= a <= b < entries@.len() ==> entries@[a].time.as_seconds()
                <= entries@[b].time.as_seconds(),
        forall|a: int| 0 <= a < entries@.len() ==> (#[trigger] entries@[a]).time.wf(),
    ensures
        0 <= j <= entries@.len(),
        forall|k: int| 0 <= k < j ==> entries@[k].time.as_seconds() <= t,
        forall|k: int| j <= k < entries@.len() ==> entries@[k].time.as_seconds() > t,
{
    let mut j: usize = 0;
    while j < entries.len()
        invariant
            forall|a: int, b: int|
                0 <= a <= b < entries@.len() ==> entries@[a].time.as_seconds()
                    <= entries@[b].time.as_seconds(),
            forall|a: int| 0 <= a < entries@.len() ==> (#[trigger] entries@[a]).time.wf(),
            0 <= j <= entries@.len(),
            forall|k: int| 0 <= k < j ==> entries@[k].time.as_seconds() <= t,
        decreases entries@.len() - j,
    {
        if entries[j].time.to_seconds() > t {
            proof {
                assert forall|k: int| j <= k < entries@.len() implies entries@[k].time.as_seconds()
                    > t by {
                    assert(entries@[j as int].time.as_seconds() <= entries@[k].time.as_seconds());
                }
            }
            return j;
        }
        j += 1;
    }
    j
}

impl Queue {
    /// Entries are sorted by due instant and every instant is well formed.
    pub open spec fn wf(self) -> bool {
        &&& forall|i: int, j: int|
            0 <= i <= j < self@.len() ==> self@[i].time.as_seconds() <= self@[j].time.as_seconds()
        &&& forall|i: int| 0 <= i < self@.len() ==> (#[trigger] self@[i]).time.wf()
    }

    pub fn new() -> (q: Queue)
        ensures
            q.wf(),
            q@.len() == 0,
    {
        Queue { entries: Vec::new() }
    }

    pub fn len(&self) -> (n: usize)
        ensures
            n == self@.len(),
    {
        self.entries.len()
    }

    pub fn is_empty(&self) -> (r: bool)
        ensures
            r == (self@.len() == 0),
    {
        self.entries.len() == 0
    }

    /// Inserts an entry, keeping the queue ordered by due instant; it goes
    /// behind every entry due no later than it.
    pub fn push(&mut self, time: DateTime, task: Task)
        requires
            old(self).wf(),
            time.wf(),
        ensures
            final(self).wf(),
            final(self)@.len() == old(self)@.len() + 1,
            final(self)@.to_multiset() == old(self)@.to_multiset().insert(
                QueuedTask { time, task },
            ),
            exists|i: int|
                {
                    &&& 0 <= i <= old(self)@.len()
                    &&& (forall|k: int|
                        0 <= k < i ==> old(self)@[k].time.as_seconds() <= time.as_seconds())
                    &&& (forall|k: int|
                        i <= k < old(self)@.len() ==> old(self)@[k].time.as_seconds()
                            > time.as_seconds())
                    &&& final(self)@ == old(self)@.insert(i, QueuedTask { time, task })
                },
    {
        let t = time.to_seconds();
        let j = insert_position(&self.entries, t);
        let ghost before = self@;
        let ghost pos = j as int;
        self.entries.insert(j, QueuedTask { time, task });
        proof {
            assert(self@ == before.insert(pos, QueuedTask { time, task }));
            lemma_insert_to_multiset(before, pos, QueuedTask { time, task });
            assert forall|a: int, b: int| 0 <= a <= b < self@.len() implies self@[a].time
                .as_seconds() <= self@[b].time.as_seconds() by {
                if a < pos {
                    assert(self@[a] == before[a]);
                }
                if b < pos {
                    assert(self@[b] == before[b]);
                }
                if a > pos {
                    assert(self@[a] == before[a - 1]);
                }
                if b > pos {
                    assert(self@[b] == before[b - 1]);
                }
            }
            assert forall|i: int| 0 <= i < self@.len() implies (#[trigger] self@[i]).time.wf() by {
                if i < pos {
                    assert(self@[i] == before[i]);
                } else if i > pos {
                    assert(self@[i] == before[i - 1]);
                }
            }
        }
    }

    /// The entry at a position, earliest first.
    pub fn get(&self, i: usize) -> (r: &QueuedTask)
        requires
            i < self@.len(),
        ensures
            *r == self@[i as int],
    {
        &self.entries[i]
    }

    /// The earliest pending due instant, left in place.
    pub fn peek_time(&self) -> (r: DateTime)
        requires
            self.wf(),
            self@.len() > 0,
        ensures
            r == self@[0].time,
            r.wf(),
            forall|i: int| 0 <= i < self@.len() ==> r.as_seconds() <= self@[i].time.as_seconds(),
    {
        self.entries[0].time
    }

    /// Removes and returns the task of the earliest entry, if any. The
    /// popped entry is due no later than anything left in the queue.
    pub fn try_pop(&mut self) -> (r: Option<Task>)
        requires
            old(self).wf(),
        ensures
            final(self).wf(),
            match r {
                None => old(self)@.len() == 0 && final(self)@ == old(self)@,
                Some(task) => {
                    &&& old(self)@.len() > 0
                    &&& task == old(self)@[0].task
                    &&& final(self)@ == old(self)@.drop_first()
                    &&& final(self)@.to_multiset() == old(self)@.to_multiset().remove(
                        old(self)@[0],
                    )
                    &&& forall|i: int|
                        0 <= i < final(self)@.len() ==> old(self)@[0].time.as_seconds()
                            <= final(self)@[i].time.as_seconds()
                },
            },
    {
        if self.entries.len() == 0 {
            None
        } else {
            let qt = self.entries.remove(0);
            proof {
                broadcast use vstd::seq_lib::group_to_multiset_ensures;

                assert(self@ =~= old(self)@.drop_first());
                assert(self@ =~= old(self)@.remove(0));
                assert(self@.to_multiset() =~= old(self)@.to_multiset().remove(old(self)@[0]));
            }
            Some(qt.task)
        }
    }
}

/// The queue dispatches in non-decreasing due-instant order: an entry
/// ahead of another is never due later, so pops from a well-formed queue
/// yield non-decreasing instants regardless of the order the entries were
/// pushed in.
pub proof fn lemma_queue_ordered(q: Queue, i: int, j: int)
    requires
        q.wf(),
        0 <= i <= j < q@.len(),
    ensures
        q@[i].time.as_seconds() <= q@[j].time.as_seconds(),
{
}

} // verus!
