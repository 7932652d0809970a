//! The decisions of the dispatcher loop and of queue seeding.
//!
//! The loop itself — blocking on the queue, sleeping, spawning workers —
//! runs outside the library; these functions decide what it does: whether
//! the earliest entry is due, how long to sleep before rechecking, and
//! which initial due instant seeds each task.

use vstd::prelude::*;

use crate::datetime::{DateTime, MAX_YEAR};
use crate::queue::{Queue, QueuedTask};
use crate::rules::{
    max_add_seconds, next_run_result, no_matching_date, on_result, start_date_for, ScheduleError,
    Time,
};
use crate::task::Task;

verus! {

/// Whether the earliest pending instant has passed: only then does the
/// dispatcher pop and run.
pub fn is_due(peek: &DateTime, now: &DateTime) -> (r: bool)
    requires
        peek.wf(),
        now.wf(),
    ensures
        r == (peek.as_seconds() < now.as_seconds()),
{
    peek.to_seconds() < now.to_seconds()
}

/// How long the dispatcher sleeps before rechecking a pending instant:
/// half the remaining wait, kept between one second and one minute so
/// the loop neither spins nor oversleeps across clock jumps.
pub open spec fn sleep_policy(peek: DateTime, now: DateTime) -> int {
    let diff = if peek.as_seconds() >= now.as_seconds() {
        peek.as_seconds() - now.as_seconds()
    } else {
        1
    };
    let half = diff / 2;
    if half < 1 {
        1
    } else if half > 60 {
        60
    } else {
        half
    }
}

pub fn sleep_seconds(peek: &DateTime, now: &DateTime) -> (r: u64)
    requires
        peek.wf(),
        now.wf(),
    ensures
        r == sleep_policy(*peek, *now),
        1 <= r <= 60,
{
    let p = peek.to_seconds();
    let n = now.to_seconds();
    let diff: i64 = if p >= n {
        p - n
    } else {
        1
    };
    let half = diff / 2;
    if half < 1 {
        1
    } else if half > 60 {
        60
    } else {
        half as u64
    }
}

/// The instant a task is first seeded with: `now` itself for a startup
/// task, otherwise the rule's next occurrence from `now`. A failure here
/// is the load-time fatal error: the caller must abort startup.
pub fn initial_due(task: &Task, now: &DateTime) -> (r: Result<DateTime, ScheduleError>)
    requires
        task.wf(),
        now.wf(),
        now.date.year + 31 <= MAX_YEAR,
        match task.time {
            Time::Every { seconds } => now.as_seconds() + seconds <= max_add_seconds(),
            Time::After { seconds } => now.as_seconds() + seconds <= max_add_seconds(),
            Time::On { .. } => true,
        },
    ensures
        match r {
            Ok(v) => {
                &&& v.wf()
                &&& if task.on_startup {
                    v == *now
                } else {
                    match task.time {
                        Time::Every { seconds } | Time::After { seconds } => v.as_seconds()
                            == now.as_seconds() + seconds,
                        Time::On { second, minute, hour, weekday, day, month } => {
                            &&& v.as_seconds() > now.as_seconds()
                            &&& on_result(*now, v, second@, minute@, hour@, weekday@, day@, month@)
                        },
                    }
                }
            },
            Err(e) => {
                &&& !task.on_startup
                &&& e == ScheduleError::NoOccurrenceFound
                &&& match task.time {
                    Time::On { second, minute, hour, weekday, day, month } => no_matching_date(
                        start_date_for(*now, hour@, minute@, second@),
                        weekday@,
                        day@,
                        month@,
                    ),
                    _ => false,
                }
            },
        },
{
    if task.on_startup {
        Ok(*now)
    } else {
        task.time.next_run(now)
    }
}

/// The bounds `next_run` asks of its reference instant, for one rule.
pub open spec fn rearm_in_range(t: Time, now: DateTime) -> bool {
    match t {
        Time::Every { seconds } => now.as_seconds() + seconds <= max_add_seconds(),
        Time::After { seconds } => now.as_seconds() + seconds <= max_add_seconds(),
        Time::On { .. } => true,
    }
}

/// `time` is an instant the seeding decision allows for `task` at `now`.
pub open spec fn seeded_at(task: Task, now: DateTime, time: DateTime) -> bool {
    if task.on_startup {
        time == now
    } else {
        next_run_result(task.time, now, Ok(time))
    }
}

/// Seeds the queue with every task's first due instant, draining the
/// task list in order; the first task whose rule yields no occurrence
/// aborts seeding, as startup must then fail.
pub fn seed_queue(queue: &mut Queue, tasks: &mut Vec<Task>, now: &DateTime) -> (r: Result<
    (),
    ScheduleError,
>)
    requires
        old(queue).wf(),
        now.wf(),
        now.date.year + 31 <= MAX_YEAR,
        forall|i: int| 0 <= i < old(tasks)@.len() ==> (#[trigger] old(tasks)@[i]).wf(),
        forall|i: int|
            0 <= i < old(tasks)@.len() ==> rearm_in_range((#[trigger] old(tasks)@[i]).time, *now),
    ensures
        final(queue).wf(),
        match r {
            Ok(()) => {
                &&& final(queue)@.len() == old(queue)@.len() + old(tasks)@.len()
                &&& final(tasks)@.len() == 0
                &&& forall|i: int|
                    #![trigger old(tasks)@[i]]
                    0 <= i < old(tasks)@.len() ==> exists|e: int|
                        {
                            &&& 0 <= e < final(queue)@.len()
                            &&& (#[trigger] final(queue)@[e]).task == old(tasks)@[i]
                            &&& seeded_at(old(tasks)@[i], *now, final(queue)@[e].time)
                        }
            },
            Err(e) => {
                &&& e == ScheduleError::NoOccurrenceFound
                &&& exists|i: int|
                    0 <= i < old(tasks)@.len() && !(#[trigger] old(tasks)@[i]).on_startup
                        && match old(tasks)@[i].time {
                        Time::On { second, minute, hour, weekday, day, month } => no_matching_date(
                            start_date_for(*now, hour@, minute@, second@),
                            weekday@,
                            day@,
                            month@,
                        ),
                        _ => false,
                    }
            },
        },
{
    let ghost orig = old(tasks)@;
    let rest = tasks;
    let total = rest.len();
    let mut idx: usize = 0;
    while rest.len() > 0
        invariant
            queue.wf(),
            now.wf(),
            now.date.year + 31 <= MAX_YEAR,
            0 <= idx,
            orig == old(tasks)@,
            orig.len() == total,
            idx + rest@.len() == orig.len(),
            rest@ == orig.subrange(idx as int, orig.len() as int),
            forall|i: int| 0 <= i < orig.len() ==> (#[trigger] orig[i]).wf(),
            forall|i: int| 0 <= i < orig.len() ==> rearm_in_range((#[trigger] orig[i]).time, *now),
            queue@.len() == old(queue)@.len() + idx,
            forall|i: int|
                #![trigger orig[i]]
                0 <= i < idx ==> exists|e: int|
                    {
                        &&& 0 <= e < queue@.len()
                        &&& (#[trigger] queue@[e]).task == orig[i]
                        &&& seeded_at(orig[i], *now, queue@[e].time)
                    },
        decreases rest@.len(),
    {
        let task = rest.remove(0);
        proof {
            assert(task == orig[idx as int]);
            assert(rest@ =~= orig.subrange(idx + 1, orig.len() as int));
        }
        let due = match initial_due(&task, now) {
            Ok(d) => d,
            Err(e) => {
                proof {
                    assert(0 <= idx < orig.len());
                    assert(!(old(tasks)@[idx as int]).on_startup);
                }
                return Err(e);
            },
        };
        let ghost entry = QueuedTask { time: due, task };
        let ghost before = queue@;
        queue.push(due, task);
        proof {
            let p = choose|p: int|
                {
                    &&& 0 <= p <= before.len()
                    &&& (forall|k: int| 0 <= k < p ==> before[k].time.as_seconds() <= due.as_seconds())
                    &&& (forall|k: int|
                        p <= k < before.len() ==> before[k].time.as_seconds() > due.as_seconds())
                    &&& queue@ == before.insert(p, entry)
                };
            assert(queue@[p] == entry);
            assert forall|i: int| #![trigger orig[i]] 0 <= i < idx + 1 implies exists|e: int|
                {
                    &&& 0 <= e < queue@.len()
                    &&& (#[trigger] queue@[e]).task == orig[i]
                    &&& seeded_at(orig[i], *now, queue@[e].time)
                } by {
                if i < idx {
                    let e0 = choose|e: int|
                        {
                            &&& 0 <= e < before.len()
                            &&& (#[trigger] before[e]).task == orig[i]
                            &&& seeded_at(orig[i], *now, before[e].time)
                        };
                    if e0 < p {
                        assert(queue@[e0] == before[e0]);
                    } else {
                        assert(queue@[e0 + 1] == before[e0]);
                    }
                } else {
                    assert(queue@[p].task == orig[i]);
                }
            }
            assert(idx < total);
        }
        idx += 1;
    }
    Ok(())
}

} // verus!
