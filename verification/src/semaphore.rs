//! Counting semaphore whose operations also keep each task's `need` and
//! `allocation` lists up to date, for deadlock detection.
use vstd::prelude::*;
use std::collections::VecDeque;
use crate::deadlock::{all_finished, lemma_entry_total_increment, lemma_released_update_slot, released};
use crate::task::{
    can_increment, can_release, claims_view, increment_entry, increment_spec, lemma_increment_wf,
    lemma_remove_wf, list_wf, release_entry, remove_spec, TaskResources, TaskResourcesView,
};

verus! {

/// Semaphore state.
pub struct SemaphoreInner {
    /// Free units; when negative, its magnitude counts the waiting tasks.
    pub count: isize,
    /// Task slots blocked on the semaphore, first come first woken.
    pub wait_queue: VecDeque<usize>,
}

/// A semaphore of a process.
pub struct Semaphore {
    /// The semaphore's id within its process.
    pub semaphore_id: usize,
    /// The counter and the wait queue.
    pub inner: SemaphoreInner,
}

/// Mathematical view of a [`Semaphore`].
pub struct SemaphoreView {
    pub id: usize,
    pub count: int,
    pub queue: Seq<usize>,
}

impl View for Semaphore {
    type V = SemaphoreView;

    open spec fn view(&self) -> SemaphoreView {
        SemaphoreView { id: self.semaphore_id, count: self.inner.count as int, queue: self.inner.wait_queue@ }
    }
}

impl SemaphoreView {
    /// The wait queue holds exactly as many tasks as the counter is below
    /// zero.
    pub open spec fn balanced(self) -> bool {
        self.queue.len() == if self.count < 0 {
            -self.count
        } else {
            0
        }
    }

    /// Whether a `down` on this state blocks the caller.
    pub open spec fn down_blocks(self) -> bool {
        self.count - 1 < 0
    }

    /// The state after a `down` by task slot `current`.
    pub open spec fn after_down(self, current: usize) -> SemaphoreView {
        SemaphoreView {
            id: self.id,
            count: self.count - 1,
            queue: if self.down_blocks() {
                self.queue.push(current)
            } else {
                self.queue
            },
        }
    }

    /// The task slot an `up` on this state wakes, if any.
    pub open spec fn up_wakes(self) -> Option<usize> {
        if self.count + 1 <= 0 && self.queue.len() > 0 {
            Some(self.queue[0])
        } else {
            None
        }
    }

    /// The state after an `up`.
    pub open spec fn after_up(self) -> SemaphoreView {
        SemaphoreView {
            id: self.id,
            count: self.count + 1,
            queue: if self.up_wakes() is Some {
                self.queue.drop_first()
            } else {
                self.queue
            },
        }
    }
}

/// The lists of the task that calls `down` on semaphore `id`: one more unit
/// needed if it blocks, one more unit held otherwise.
pub open spec fn task_after_down(t: TaskResourcesView, id: usize, blocks: bool) -> TaskResourcesView {
    if blocks {
        TaskResourcesView { need: increment_spec(t.need, id), allocation: t.allocation }
    } else {
        TaskResourcesView { need: t.need, allocation: increment_spec(t.allocation, id) }
    }
}

/// The lists of the task that an `up` on semaphore `id` wakes: it no longer
/// needs the semaphore and holds one more unit of it.
pub open spec fn task_after_wakeup(t: TaskResourcesView, id: usize) -> TaskResourcesView {
    TaskResourcesView { need: remove_spec(t.need, id), allocation: increment_spec(t.allocation, id) }
}

/// Both lists of a task keep distinct ids and positive counts.
pub open spec fn task_wf(t: TaskResourcesView) -> bool {
    list_wf(t.need) && list_wf(t.allocation)
}

/// Every semaphore of a table sits in the slot named by its id and is
/// balanced.
pub open spec fn semaphores_wf(sems: Seq<Option<SemaphoreView>>) -> bool {
    forall|i: int| 0 <= i < sems.len() ==> (#[trigger] sems[i] matches Some(s) ==> s.id == i && s.balanced())
}

/// Replacing one semaphore of a table by a balanced one with the slot's id
/// keeps the table well formed.
pub proof fn lemma_semaphores_wf_update(sems: Seq<Option<SemaphoreView>>, i: int, s: SemaphoreView)
    requires
        semaphores_wf(sems),
        0 <= i < sems.len(),
        s.id == i,
        s.balanced(),
    ensures
        semaphores_wf(sems.update(i, Some(s))),
{
    let u = sems.update(i, Some(s));
    assert forall|q: int| 0 <= q < u.len() implies (#[trigger] u[q] matches Some(x) ==> x.id == q && x.balanced()) by {
        if q != i {
            assert(u[q] == sems[q]);
        }
    }
}

/// Every live task's lists keep distinct ids and positive counts.
pub open spec fn tasks_wf(claims: Seq<Option<TaskResourcesView>>) -> bool {
    forall|t: int| 0 <= t < claims.len() ==> (#[trigger] claims[t] matches Some(c) ==> task_wf(c))
}

/// Replacing one task's lists by well-formed ones keeps every task's lists
/// well formed.
pub proof fn lemma_tasks_wf_update(claims: Seq<Option<TaskResourcesView>>, t: int, c: TaskResourcesView)
    requires
        tasks_wf(claims),
        task_wf(c),
        0 <= t < claims.len(),
    ensures
        tasks_wf(claims.update(t, Some(c))),
{
    let u = claims.update(t, Some(c));
    assert forall|q: int| 0 <= q < u.len() implies (#[trigger] u[q] matches Some(d) ==> task_wf(d)) by {
        if q != t {
            assert(u[q] == claims[q]);
        }
    }
}

impl Semaphore {
    /// Creates semaphore `semaphore_id` with `res_count` free units and no
    /// waiting task.
    pub fn new(semaphore_id: usize, res_count: usize) -> (s: Self)
        ensures
            s@.id == semaphore_id,
            s@.count == res_count as isize,
            s@.queue == Seq::<usize>::empty(),
            res_count <= isize::MAX ==> s@.balanced(),
    {
        Semaphore {
            semaphore_id,
            inner: SemaphoreInner { count: res_count as isize, wait_queue: VecDeque::new() },
        }
    }

    /// Releases one unit. If a task waits for it, the first waiter is
    /// removed from the queue, its `need` entry for this semaphore is dropped,
    /// one unit is added to its `allocation`, and its slot is returned to be
    /// woken up.
    pub fn up(&mut self, tasks: &mut Vec<Option<TaskResources>>) -> (woken: Option<usize>)
        requires
            old(self).inner.count < isize::MAX,
            old(self)@.up_wakes() matches Some(t) ==> {
                &&& t < old(tasks)@.len()
                &&& old(tasks)@[t as int] is Some
                &&& can_release(old(tasks)@[t as int].unwrap().need@, old(self).semaphore_id)
                &&& can_increment(old(tasks)@[t as int].unwrap().allocation@, old(self).semaphore_id)
            },
        ensures
            final(self)@ == old(self)@.after_up(),
            woken == old(self)@.up_wakes(),
            claims_view(final(tasks)@) == match woken {
                Some(t) => claims_view(old(tasks)@).update(
                    t as int,
                    Some(task_after_wakeup(old(tasks)@[t as int].unwrap()@, old(self).semaphore_id)),
                ),
                None => claims_view(old(tasks)@),
            },
            old(self)@.balanced() ==> final(self)@.balanced(),
            old(self)@.balanced() ==> (woken is Some <==> old(self)@.count < 0),
            woken matches Some(t) ==> (task_wf(old(tasks)@[t as int].unwrap()@) ==> task_wf(
                final(tasks)@[t as int].unwrap()@,
            )),
            tasks_wf(claims_view(old(tasks)@)) ==> tasks_wf(claims_view(final(tasks)@)),
    {
        proof {
            lemma_up_balanced(self@);
        }
        let ghost old_tasks = tasks@;
        let id = self.semaphore_id;
        self.inner.count = self.inner.count + 1;
        if self.inner.count <= 0 {
            if let Some(t) = self.inner.wait_queue.pop_front() {
                match &mut tasks[t] {
                    Some(task) => {
                        release_entry(&mut task.need, id);
                        increment_entry(&mut task.allocation, id);
                    },
                    None => {},
                }
                proof {
                    let old_t = old_tasks[t as int].unwrap()@;
                    assert(self.inner.wait_queue@ =~= old(self)@.queue.drop_first());
                    assert(claims_view(tasks@) =~= claims_view(old_tasks).update(
                        t as int,
                        Some(task_after_wakeup(old_t, id)),
                    ));
                    assert(claims_view(old_tasks)[t as int] == Some(old_t));
                    if task_wf(old_t) {
                        lemma_remove_wf(old_t.need, id);
                        lemma_increment_wf(old_t.allocation, id);
                    }
                    if tasks_wf(claims_view(old_tasks)) {
                        lemma_tasks_wf_update(claims_view(old_tasks), t as int, task_after_wakeup(old_t, id));
                    }
                }
                return Some(t);
            }
        }
        proof {
            assert(claims_view(tasks@) =~= claims_view(old_tasks));
        }
        None
    }

    /// Acquires one unit for the task in slot `current`. When none is free
    /// the task is added to the wait queue, one unit is added to its `need`,
    /// and `true` is returned: the caller must block it. Otherwise one unit
    /// is added to its `allocation` and `false` is returned.
    pub fn down(&mut self, tasks: &mut Vec<Option<TaskResources>>, current: usize) -> (blocked: bool)
        requires
            old(self).inner.count > isize::MIN,
            current < old(tasks)@.len(),
            old(tasks)@[current as int] is Some,
            if old(self)@.down_blocks() {
                can_increment(old(tasks)@[current as int].unwrap().need@, old(self).semaphore_id)
            } else {
                can_increment(old(tasks)@[current as int].unwrap().allocation@, old(self).semaphore_id)
            },
        ensures
            blocked == old(self)@.down_blocks(),
            final(self)@ == old(self)@.after_down(current),
            claims_view(final(tasks)@) == claims_view(old(tasks)@).update(
                current as int,
                Some(task_after_down(old(tasks)@[current as int].unwrap()@, old(self).semaphore_id, blocked)),
            ),
            old(self)@.balanced() ==> final(self)@.balanced(),
            task_wf(old(tasks)@[current as int].unwrap()@) ==> task_wf(
                final(tasks)@[current as int].unwrap()@,
            ),
            tasks_wf(claims_view(old(tasks)@)) ==> tasks_wf(claims_view(final(tasks)@)),
    {
        proof {
            lemma_down_balanced(self@, current);
        }
        let ghost old_tasks = tasks@;
        let ghost old_t = old_tasks[current as int].unwrap()@;
        let id = self.semaphore_id;
        self.inner.count = self.inner.count - 1;
        let blocked = self.inner.count < 0;
        match &mut tasks[current] {
            Some(task) => {
                if blocked {
                    increment_entry(&mut task.need, id);
                } else {
                    increment_entry(&mut task.allocation, id);
                }
            },
            None => {},
        }
        if blocked {
            self.inner.wait_queue.push_back(current);
        }
        proof {
            assert(claims_view(tasks@) =~= claims_view(old_tasks).update(
                current as int,
                Some(task_after_down(old_t, id, blocked)),
            ));
            assert(claims_view(old_tasks)[current as int] == Some(old_t));
            if task_wf(old_t) {
                if blocked {
                    lemma_increment_wf(old_t.need, id);
                } else {
                    lemma_increment_wf(old_t.allocation, id);
                }
            }
            if tasks_wf(claims_view(old_tasks)) {
                lemma_tasks_wf_update(claims_view(old_tasks), current as int, task_after_down(old_t, id, blocked));
            }
        }
        blocked
    }
}

/// A `down` keeps the caller's resource lists well formed.
pub proof fn lemma_task_after_down_wf(t: TaskResourcesView, id: usize, blocks: bool)
    requires
        task_wf(t),
        if blocks {
            can_increment(t.need, id)
        } else {
            can_increment(t.allocation, id)
        },
    ensures
        task_wf(task_after_down(t, id, blocks)),
{
    if blocks {
        lemma_increment_wf(t.need, id);
    } else {
        lemma_increment_wf(t.allocation, id);
    }
}

/// A wake-up keeps the woken task's resource lists well formed.
pub proof fn lemma_task_after_wakeup_wf(t: TaskResourcesView, id: usize)
    requires
        task_wf(t),
        can_increment(t.allocation, id),
    ensures
        task_wf(task_after_wakeup(t, id)),
{
    lemma_remove_wf(t.need, id);
    lemma_increment_wf(t.allocation, id);
}

/// `down` keeps the wait queue as long as the counter is below zero.
pub proof fn lemma_down_balanced(s: SemaphoreView, current: usize)
    ensures
        s.balanced() ==> s.after_down(current).balanced(),
{
}

/// `up` keeps the wait queue as long as the counter is below zero, and on a
/// balanced semaphore it wakes a task exactly when one is waiting.
pub proof fn lemma_up_balanced(s: SemaphoreView)
    ensures
        s.balanced() ==> s.after_up().balanced(),
        s.balanced() ==> (s.up_wakes() is Some <==> s.count < 0),
{
}

/// An `up` right after a `down` restores the counter, and on a balanced
/// semaphore with no waiter it restores the whole state; the task woken,
/// if any, is the one that blocked.
pub proof fn lemma_up_undoes_down(s: SemaphoreView, current: usize)
    requires
        s.balanced(),
    ensures
        s.after_down(current).after_up().count == s.count,
        s.count >= 0 ==> s.after_down(current).after_up() == s,
        s.count >= 0 ==> s.after_down(current).up_wakes() == if s.count == 0 {
            Some(current)
        } else {
            None::<usize>
        },
{
    if s.count >= 0 {
        assert(s.queue =~= Seq::<usize>::empty());
        if s.count == 0 {
            assert(s.queue.push(current).drop_first() =~= s.queue);
        }
    }
}

/// Free units of a semaphore whose counter is `count`.
pub open spec fn available(count: int) -> int {
    if count < 0 {
        0
    } else {
        count
    }
}

/// Units of semaphore `id` that the live tasks hold.
pub open spec fn units_held(claims: Seq<Option<TaskResourcesView>>, id: usize) -> int {
    released(claims, all_finished(claims.len() as int), id, claims.len() as int)
}

/// A `down` moves units and never creates or loses one: the free units plus
/// the units the tasks hold stay as they were.
pub proof fn lemma_down_conserves_units(s: SemaphoreView, claims: Seq<Option<TaskResourcesView>>, current: usize)
    requires
        current < claims.len(),
        claims[current as int] is Some,
        !s.down_blocks() ==> can_increment(claims[current as int].unwrap().allocation, s.id),
    ensures
        available(s.after_down(current).count) + units_held(
            claims.update(
                current as int,
                Some(task_after_down(claims[current as int].unwrap(), s.id, s.down_blocks())),
            ),
            s.id,
        ) == available(s.count) + units_held(claims, s.id),
{
    let n = claims.len() as int;
    let c = claims[current as int].unwrap();
    let d = task_after_down(c, s.id, s.down_blocks());
    lemma_released_update_slot(claims, all_finished(n), s.id, current as int, d, n);
    assert(all_finished(n)[current as int]);
    if !s.down_blocks() {
        lemma_entry_total_increment(c.allocation, s.id);
    }
}

/// On a balanced semaphore an `up` adds exactly one unit: either a free one,
/// or one now held by the task it wakes.
pub proof fn lemma_up_adds_unit(s: SemaphoreView, claims: Seq<Option<TaskResourcesView>>)
    requires
        s.balanced(),
        s.up_wakes() matches Some(t) ==> {
            &&& t < claims.len()
            &&& claims[t as int] is Some
            &&& can_increment(claims[t as int].unwrap().allocation, s.id)
        },
    ensures
        available(s.after_up().count) + units_held(
            match s.up_wakes() {
                Some(t) => claims.update(t as int, Some(task_after_wakeup(claims[t as int].unwrap(), s.id))),
                None => claims,
            },
            s.id,
        ) == available(s.count) + units_held(claims, s.id) + 1,
{
    let n = claims.len() as int;
    if let Some(t) = s.up_wakes() {
        let c = claims[t as int].unwrap();
        lemma_released_update_slot(claims, all_finished(n), s.id, t as int, task_after_wakeup(c, s.id), n);
        assert(all_finished(n)[t as int]);
        lemma_entry_total_increment(c.allocation, s.id);
    }
}

} // verus!
