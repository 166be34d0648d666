//! Synchronisation system calls: sleep, mutexes, semaphores, condition
//! variables and deadlock detection.
use vstd::prelude::*;
use crate::deadlock::{
    all_finished, check_input_ok, is_deadlock_free, is_safe_state, lemma_more_units_stay_safe,
    released, work_value,
};
use crate::process::{
    fill_slot, find_free_slot, first_free, semaphores_view, slot_for, Condvar, KernelAction, MutexKind, Process,
    SyscallReply, DEADLOCK_ERROR,
};
use crate::semaphore::{
    lemma_down_balanced, lemma_semaphores_wf_update, lemma_up_balanced, semaphores_wf,
    task_after_down, task_after_wakeup, Semaphore, SemaphoreView,
};
use crate::task::{
    can_increment, can_release, claims_view, distinct_ids, find_entry_spec, lemma_find_push_absent,
    lemma_find_push_found, lemma_increment_ids, lemma_remove_ids, TaskResources, TaskResourcesView,
};

verus! {

/// Puts the current task to sleep for `ms` milliseconds from `now_ms`.
pub fn sys_sleep(now_ms: usize, ms: usize) -> (r: SyscallReply)
    requires
        now_ms + ms <= usize::MAX,
    ensures
        r.ret == 0,
        r.action == KernelAction::Sleep((now_ms + ms) as usize),
{
    SyscallReply { ret: 0, action: KernelAction::Sleep(now_ms + ms) }
}

/// Everything but the mutex table is left as it was.
pub open spec fn same_but_mutexes(a: &Process, b: &Process) -> bool {
    &&& a.pid == b.pid
    &&& a.children@ == b.children@
    &&& semaphores_view(a.semaphore_list@) == semaphores_view(b.semaphore_list@)
    &&& a.condvar_list@ == b.condvar_list@
    &&& claims_view(a.tasks@) == claims_view(b.tasks@)
    &&& a.deadlock_detection == b.deadlock_detection
}

/// Creates a mutex (a blocking one when `blocking`) in the first free slot
/// of the mutex table, or in a new slot at its end, and returns the slot.
pub fn sys_mutex_create(process: &mut Process, blocking: bool) -> (r: SyscallReply)
    requires
        old(process).mutex_list@.len() < isize::MAX,
    ensures
        final(process).mutex_list@ == fill_slot(
            old(process).mutex_list@,
            if blocking {
                MutexKind::Blocking
            } else {
                MutexKind::Spin
            },
        ),
        r.ret == slot_for(old(process).mutex_list@) as isize,
        r.action == KernelAction::Nothing,
        same_but_mutexes(old(process), final(process)),
        old(process).sync_wf() ==> final(process).sync_wf(),
        old(process).names_known_semaphores() ==> final(process).names_known_semaphores(),
{
    let mutex = if !blocking {
        MutexKind::Spin
    } else {
        MutexKind::Blocking
    };
    match find_free_slot(&process.mutex_list) {
        Some(id) => {
            process.mutex_list.set(id, Some(mutex));
            SyscallReply { ret: id as isize, action: KernelAction::Nothing }
        },
        None => {
            process.mutex_list.push(Some(mutex));
            SyscallReply { ret: process.mutex_list.len() as isize - 1, action: KernelAction::Nothing }
        },
    }
}

/// Locks mutex `mutex_id`. `is_locking` is whether the mutex is held right
/// now; with deadlock detection on, locking a held mutex is refused.
pub fn sys_mutex_lock(process: &Process, mutex_id: usize, is_locking: bool) -> (r: SyscallReply)
    requires
        process.has_mutex(mutex_id),
    ensures
        process.deadlock_detection && is_locking ==> r.ret == DEADLOCK_ERROR && r.action
            == KernelAction::Nothing,
        !(process.deadlock_detection && is_locking) ==> r.ret == 0 && r.action
            == KernelAction::LockMutex(mutex_id),
{
    if process.deadlock_detection && is_locking {
        return SyscallReply { ret: DEADLOCK_ERROR, action: KernelAction::Nothing };
    }
    SyscallReply { ret: 0, action: KernelAction::LockMutex(mutex_id) }
}

/// Unlocks mutex `mutex_id`.
pub fn sys_mutex_unlock(process: &Process, mutex_id: usize) -> (r: SyscallReply)
    requires
        process.has_mutex(mutex_id),
    ensures
        r.ret == 0,
        r.action == KernelAction::UnlockMutex(mutex_id),
{
    SyscallReply { ret: 0, action: KernelAction::UnlockMutex(mutex_id) }
}

/// Everything but the semaphore table and the task table is left as it was.
pub open spec fn same_but_semaphores(a: &Process, b: &Process) -> bool {
    &&& a.pid == b.pid
    &&& a.children@ == b.children@
    &&& a.mutex_list@ == b.mutex_list@
    &&& a.condvar_list@ == b.condvar_list@
    &&& a.deadlock_detection == b.deadlock_detection
}

/// Creates a semaphore with `res_count` units in the first free slot of the
/// semaphore table, or in a new slot at its end, and returns the slot, which
/// is also the semaphore's id.
pub fn sys_semaphore_create(process: &mut Process, res_count: usize) -> (r: SyscallReply)
    ensures
        semaphores_view(final(process).semaphore_list@) == fill_slot(
            semaphores_view(old(process).semaphore_list@),
            SemaphoreView {
                id: slot_for(old(process).semaphore_list@) as usize,
                count: res_count as isize as int,
                queue: Seq::empty(),
            },
        ),
        r.ret == slot_for(old(process).semaphore_list@) as usize as isize,
        r.action == KernelAction::Nothing,
        claims_view(final(process).tasks@) == claims_view(old(process).tasks@),
        same_but_semaphores(old(process), final(process)),
        old(process).sync_wf() && res_count <= isize::MAX ==> final(process).sync_wf(),
        old(process).names_known_semaphores() ==> final(process).names_known_semaphores(),
{
    let ghost old_list = process.semaphore_list@;
    let id = match find_free_slot(&process.semaphore_list) {
        Some(id) => {
            process.semaphore_list.set(id, Some(Semaphore::new(id, res_count)));
            id
        },
        None => {
            let id = process.semaphore_list.len();
            process.semaphore_list.push(Some(Semaphore::new(id, res_count)));
            id
        },
    };
    proof {
        lemma_first_free_view(old_list);
        assert(semaphores_view(process.semaphore_list@) =~= fill_slot(
            semaphores_view(old_list),
            SemaphoreView { id: id, count: res_count as isize as int, queue: Seq::empty() },
        ));
        if old(process).sync_wf() && res_count <= isize::MAX {
            lemma_semaphores_wf_fill(
                semaphores_view(old_list),
                SemaphoreView { id: id, count: res_count as isize as int, queue: Seq::empty() },
            );
        }
    }
    SyscallReply { ret: id as isize, action: KernelAction::Nothing }
}

/// Putting a balanced semaphore whose id is the slot it goes to into a
/// well-formed table keeps the table well formed.
proof fn lemma_semaphores_wf_fill(sems: Seq<Option<SemaphoreView>>, s: SemaphoreView)
    requires
        semaphores_wf(sems),
        s.id == slot_for(sems),
        s.balanced(),
    ensures
        semaphores_wf(fill_slot(sems, s)),
{
    match first_free(sems) {
        Some(k) => {
            let c = choose|c: int| crate::process::is_first_free(sems, c);
            assert(crate::process::is_first_free(sems, c));
            lemma_semaphores_wf_update(sems, k, s);
        },
        None => {
            let u = sems.push(Some(s));
            assert forall|q: int| 0 <= q < u.len() implies (#[trigger] u[q] matches Some(x) ==> x.id == q && x.balanced()) by {
                if q < sems.len() {
                    assert(u[q] == sems[q]);
                }
            }
        },
    }
}

/// Free slots are where they are in the views.
proof fn lemma_first_free_view(list: Seq<Option<Semaphore>>)
    ensures
        first_free_agrees(list),
{
    let v = semaphores_view(list);
    assert forall|k: int| crate::process::is_first_free(list, k) <==> crate::process::is_first_free(v, k) by {
        if 0 <= k < list.len() {
            assert forall|j: int| 0 <= j < k implies (list[j] is Some <==> v[j] is Some) by {}
            assert((forall|j: int| 0 <= j < k ==> list[j] is Some) <==> (forall|j: int|
                0 <= j < k ==> v[j] is Some));
        }
    }
    if exists|k: int| crate::process::is_first_free(list, k) {
        let a = choose|k: int| crate::process::is_first_free(list, k);
        let b = choose|k: int| crate::process::is_first_free(v, k);
        assert(crate::process::is_first_free(v, a));
        assert(crate::process::is_first_free(list, b));
        if a < b {
            assert(v[a] is Some);
        }
        if b < a {
            assert(list[b] is Some);
        }
    }
}

/// The first free slot of the semaphore table and of its view coincide.
pub open spec fn first_free_agrees(list: Seq<Option<Semaphore>>) -> bool {
    crate::process::first_free(list) == crate::process::first_free(semaphores_view(list))
}

/// Releases one unit of semaphore `sem_id`, waking its first waiter if
/// there is one.
pub fn sys_semaphore_up(process: &mut Process, sem_id: usize) -> (r: SyscallReply)
    requires
        old(process).has_semaphore(sem_id),
        old(process).semaphore(sem_id).count < isize::MAX,
        old(process).semaphore(sem_id).up_wakes() matches Some(t) ==> {
            &&& old(process).has_task(t)
            &&& can_release(old(process).tasks@[t as int].unwrap().need@, old(process).semaphore(sem_id).id)
            &&& can_increment(old(process).tasks@[t as int].unwrap().allocation@, old(process).semaphore(sem_id).id)
        },
    ensures
        r.ret == 0,
        semaphores_view(final(process).semaphore_list@) == semaphores_view(old(process).semaphore_list@).update(
            sem_id as int,
            Some(old(process).semaphore(sem_id).after_up()),
        ),
        match old(process).semaphore(sem_id).up_wakes() {
            Some(t) => {
                &&& r.action == KernelAction::Wakeup(t)
                &&& claims_view(final(process).tasks@) == claims_view(old(process).tasks@).update(
                    t as int,
                    Some(task_after_wakeup(old(process).tasks@[t as int].unwrap()@, old(process).semaphore(sem_id).id)),
                )
            },
            None => {
                &&& r.action == KernelAction::Nothing
                &&& claims_view(final(process).tasks@) == claims_view(old(process).tasks@)
            },
        },
        same_but_semaphores(old(process), final(process)),
        old(process).sync_wf() ==> final(process).sync_wf(),
        old(process).sync_wf() && old(process).names_known_semaphores()
            ==> final(process).names_known_semaphores(),
{
    let ghost old_list = process.semaphore_list@;
    let ghost old_tasks = process.tasks@;
    proof {
        lemma_up_balanced(old(process).semaphore(sem_id));
    }
    let woken = match &mut process.semaphore_list[sem_id] {
        Some(sem) => sem.up(&mut process.tasks),
        None => None,
    };
    proof {
        assert(semaphores_view(process.semaphore_list@) =~= semaphores_view(old_list).update(
            sem_id as int,
            Some(old(process).semaphore(sem_id).after_up()),
        ));
        if old(process).sync_wf() {
            let sv = old(process).semaphore(sem_id);
            assert(semaphores_view(old_list)[sem_id as int] == Some(sv));
            lemma_semaphores_wf_update(semaphores_view(old_list), sem_id as int, sv.after_up());
            if old(process).names_known_semaphores() {
                let ov = semaphores_view(old_list);
                lemma_names_known_same_slots(ov, sem_id as int, sv.after_up(), claims_view(old_tasks));
                if let Some(t) = woken {
                    let ot = old_tasks[t as int].unwrap()@;
                    assert(claims_view(old_tasks)[t as int] == Some(ot));
                    lemma_names_known_after_wakeup(ov, ot, sv.id);
                    lemma_names_known_update(ov, claims_view(old_tasks), t as int, task_after_wakeup(ot, sv.id));
                    lemma_names_known_same_slots(
                        ov,
                        sem_id as int,
                        sv.after_up(),
                        claims_view(old_tasks).update(t as int, Some(task_after_wakeup(ot, sv.id))),
                    );
                }
            }
        }
    }
    match woken {
        Some(t) => SyscallReply { ret: 0, action: KernelAction::Wakeup(t) },
        None => SyscallReply { ret: 0, action: KernelAction::Nothing },
    }
}

/// Free units of a semaphore whose counter is `count`.
pub open spec fn free_units(count: isize) -> isize {
    if count < 0 {
        0
    } else {
        count
    }
}

/// Free units of each existing semaphore, in table order, as the deadlock
/// check sees them: a negative counter counts as zero.
pub open spec fn semaphore_work(list: Seq<Option<Semaphore>>) -> Seq<(usize, isize)>
    decreases list.len(),
{
    if list.len() == 0 {
        Seq::empty()
    } else {
        let w = semaphore_work(list.drop_last());
        match list.last() {
            Some(s) => w.push((s.semaphore_id, free_units(s.inner.count))),
            None => w,
        }
    }
}

/// The tasks' lists as the deadlock check sees them: the current task also
/// needs one unit of the semaphore it asks for.
pub open spec fn request_claims(
    tasks: Seq<Option<TaskResources>>,
    current: usize,
    sem_id: usize,
) -> Seq<Option<TaskResourcesView>> {
    claims_view(tasks).update(
        current as int,
        Some(
            TaskResourcesView {
                need: tasks[current as int].unwrap().need@.push((sem_id, 1isize)),
                allocation: tasks[current as int].unwrap().allocation@,
            },
        ),
    )
}

/// With deadlock detection on, granting semaphore `sem_id` to thread
/// `current` leaves no safe sequence.
pub open spec fn down_refused(process: &Process, sem_id: usize, current: usize) -> bool {
    process.deadlock_detection && !is_deadlock_free(
        semaphore_work(process.semaphore_list@),
        request_claims(process.tasks@, current, sem_id),
    )
}

/// The deadlock check offers every existing semaphore's free units and never
/// a negative amount: a semaphore's entry is its counter when that is not
/// negative, and 0 for a semaphore with waiters; in a table whose semaphores
/// sit in the slots named by their ids, each semaphore has such an entry.
pub proof fn lemma_work_offers_free_units(list: Seq<Option<Semaphore>>)
    ensures
        forall|k: int| 0 <= k < semaphore_work(list).len() ==> #[trigger] semaphore_work(list)[k].1 >= 0,
        ids_match_slots(list) ==> forall|i: int|
            0 <= i < list.len() && #[trigger] list[i] is Some ==> {
                let c = list[i].unwrap().inner.count;
                &&& find_entry_spec(semaphore_work(list), i as usize) is Some
                &&& c >= 0 ==> work_value(semaphore_work(list), i as usize) == c
                &&& c < 0 ==> work_value(semaphore_work(list), i as usize) == 0
            },
    decreases list.len(),
{
    if list.len() > 0 {
        lemma_work_offers_free_units(list.drop_last());
        let w = semaphore_work(list.drop_last());
        if let Some(s) = list.last() {
            assert(semaphore_work(list) == w.push((s.semaphore_id, free_units(s.inner.count))));
        }
    }
    if ids_match_slots(list) {
        lemma_semaphore_work(list);
    }
}

/// Each semaphore sits in the slot named by its id.
pub open spec fn ids_match_slots(list: Seq<Option<Semaphore>>) -> bool {
    forall|i: int| 0 <= i < list.len() && #[trigger] list[i] is Some ==> list[i].unwrap().semaphore_id == i
}

/// What the deadlock check reads of a semaphore table whose semaphores sit
/// in the slots named by their ids: one entry per semaphore, under its id,
/// with its free units.
pub proof fn lemma_semaphore_work(list: Seq<Option<Semaphore>>)
    requires
        ids_match_slots(list),
    ensures
        distinct_ids(semaphore_work(list)),
        forall|k: int|
            0 <= k < semaphore_work(list).len() ==> {
                let id = (#[trigger] semaphore_work(list)[k]).0;
                &&& id < list.len()
                &&& list[id as int] is Some
                &&& semaphore_work(list)[k].1 == free_units(list[id as int].unwrap().inner.count)
            },
        forall|i: int|
            0 <= i < list.len() && #[trigger] list[i] is Some ==> find_entry_spec(
                semaphore_work(list),
                i as usize,
            ) is Some && work_value(semaphore_work(list), i as usize) == free_units(
                list[i].unwrap().inner.count,
            ),
    decreases list.len(),
{
    if list.len() > 0 {
        let pre = list.drop_last();
        assert forall|i: int| 0 <= i < pre.len() && #[trigger] pre[i] is Some implies pre[i].unwrap().semaphore_id == i by {
            assert(pre[i] == list[i]);
        }
        lemma_semaphore_work(pre);
        let w = semaphore_work(pre);
        let n = list.len() - 1;
        assert forall|k: int| 0 <= k < w.len() implies (#[trigger] w[k]).0 < n by {
            assert(w[k].0 < pre.len());
        }
        match list.last() {
            Some(s) => {
                assert(list[n] is Some);
                let e = (s.semaphore_id, free_units(s.inner.count));
                assert(semaphore_work(list) == w.push(e));
                assert forall|i: int| 0 <= i < list.len() && #[trigger] list[i] is Some implies find_entry_spec(
                    w.push(e),
                    i as usize,
                ) is Some && work_value(w.push(e), i as usize) == free_units(list[i].unwrap().inner.count) by {
                    if i < n {
                        assert(pre[i] == list[i]);
                        lemma_find_push_found(w, e, i as usize);
                    } else {
                        lemma_find_push_absent(w, e, i as usize);
                    }
                }
            },
            None => {
                assert(semaphore_work(list) == w);
                assert forall|i: int| 0 <= i < list.len() && #[trigger] list[i] is Some implies find_entry_spec(
                    w,
                    i as usize,
                ) is Some && work_value(w, i as usize) == free_units(list[i].unwrap().inner.count) by {
                    assert(pre[i] == list[i]);
                }
            },
        }
    }
}

/// Slot `i` of the semaphore table holds a semaphore.
pub open spec fn slot_used(sems: Seq<Option<SemaphoreView>>, i: usize) -> bool {
    i < sems.len() && sems[i as int] is Some
}

/// Every semaphore id in a task's lists names a used slot.
pub open spec fn task_names_known(sems: Seq<Option<SemaphoreView>>, c: TaskResourcesView) -> bool {
    &&& forall|j: int| 0 <= j < c.need.len() ==> slot_used(sems, #[trigger] c.need[j].0)
    &&& forall|j: int| 0 <= j < c.allocation.len() ==> slot_used(sems, #[trigger] c.allocation[j].0)
}

/// Every semaphore id in a live task's lists names a used slot.
pub open spec fn names_known(sems: Seq<Option<SemaphoreView>>, claims: Seq<Option<TaskResourcesView>>) -> bool {
    forall|t: int| 0 <= t < claims.len() && #[trigger] claims[t] is Some ==> task_names_known(sems, claims[t].unwrap())
}

/// Replacing one task's lists by lists that name used slots keeps every
/// name known.
proof fn lemma_names_known_update(
    sems: Seq<Option<SemaphoreView>>,
    claims: Seq<Option<TaskResourcesView>>,
    t: int,
    c: TaskResourcesView,
)
    requires
        names_known(sems, claims),
        task_names_known(sems, c),
        0 <= t < claims.len(),
    ensures
        names_known(sems, claims.update(t, Some(c))),
{
    let u = claims.update(t, Some(c));
    assert forall|q: int| 0 <= q < u.len() && #[trigger] u[q] is Some implies task_names_known(sems, u[q].unwrap()) by {
        if q != t {
            assert(u[q] == claims[q]);
        }
    }
}

/// Replacing one semaphore by another keeps every slot used.
proof fn lemma_names_known_same_slots(
    s1: Seq<Option<SemaphoreView>>,
    i: int,
    x: SemaphoreView,
    claims: Seq<Option<TaskResourcesView>>,
)
    requires
        names_known(s1, claims),
        0 <= i < s1.len(),
    ensures
        names_known(s1.update(i, Some(x)), claims),
{
    let s2 = s1.update(i, Some(x));
    assert forall|t: int| 0 <= t < claims.len() && #[trigger] claims[t] is Some implies task_names_known(s2, claims[t].unwrap()) by {
        let c = claims[t].unwrap();
        assert(task_names_known(s1, c));
        assert forall|j: int| 0 <= j < c.need.len() implies slot_used(s2, #[trigger] c.need[j].0) by {
            assert(slot_used(s1, c.need[j].0));
        }
        assert forall|j: int| 0 <= j < c.allocation.len() implies slot_used(s2, #[trigger] c.allocation[j].0) by {
            assert(slot_used(s1, c.allocation[j].0));
        }
    }
}

/// The lists a `down` on a used slot leaves to its caller name used slots.
proof fn lemma_names_known_after_down(sems: Seq<Option<SemaphoreView>>, c: TaskResourcesView, id: usize, blocks: bool)
    requires
        task_names_known(sems, c),
        slot_used(sems, id),
    ensures
        task_names_known(sems, task_after_down(c, id, blocks)),
{
    lemma_increment_ids(c.need, id);
    lemma_increment_ids(c.allocation, id);
    let d = task_after_down(c, id, blocks);
    assert forall|j: int| 0 <= j < d.need.len() implies slot_used(sems, #[trigger] d.need[j].0) by {
        if d.need[j].0 != id {
            assert(slot_used(sems, c.need[j].0));
        }
    }
    assert forall|j: int| 0 <= j < d.allocation.len() implies slot_used(sems, #[trigger] d.allocation[j].0) by {
        if d.allocation[j].0 != id {
            assert(slot_used(sems, c.allocation[j].0));
        }
    }
}

/// The lists an `up` on a used slot leaves to the task it wakes name used
/// slots.
proof fn lemma_names_known_after_wakeup(sems: Seq<Option<SemaphoreView>>, c: TaskResourcesView, id: usize)
    requires
        task_names_known(sems, c),
        slot_used(sems, id),
    ensures
        task_names_known(sems, task_after_wakeup(c, id)),
{
    lemma_remove_ids(c.need, id);
    lemma_increment_ids(c.allocation, id);
    let d = task_after_wakeup(c, id);
    assert forall|j: int| 0 <= j < d.need.len() implies slot_used(sems, #[trigger] d.need[j].0) by {
        if d.need[j].0 == c.need[j].0 {
            assert(slot_used(sems, c.need[j].0));
        } else {
            assert(slot_used(sems, c.need[j + 1].0));
        }
    }
    assert forall|j: int| 0 <= j < d.allocation.len() implies slot_used(sems, #[trigger] d.allocation[j].0) by {
        if d.allocation[j].0 != id {
            assert(slot_used(sems, c.allocation[j].0));
        }
    }
}

/// In the table's view, a slot is used exactly where the table holds a
/// semaphore.
proof fn lemma_slots_view(list: Seq<Option<Semaphore>>)
    ensures
        semaphores_view(list).len() == list.len(),
        forall|i: usize| slot_used(semaphores_view(list), i) <==> (i < list.len() && (#[trigger] list[i as int]) is Some),
{
    assert forall|i: usize| slot_used(semaphores_view(list), i) <==> (i < list.len() && (#[trigger] list[i as int]) is Some) by {
        if i < list.len() {
            assert(semaphores_view(list)[i as int] == match list[i as int] {
                Some(s) => Some(s@),
                None => None,
            });
        }
    }
}

impl Process {
    /// Every semaphore id in a live task's lists names a semaphore of the
    /// process.
    pub open spec fn names_known_semaphores(&self) -> bool {
        names_known(semaphores_view(self.semaphore_list@), claims_view(self.tasks@))
    }

    /// No semaphore's free units plus every unit that tasks hold of it go
    /// past `isize::MAX`.
    pub open spec fn hand_back_fits(&self) -> bool {
        forall|i: usize|
            #[trigger] self.has_semaphore(i) ==> free_units(self.semaphore_list@[i as int].unwrap().inner.count)
                + released(
                claims_view(self.tasks@),
                all_finished(self.tasks@.len() as int),
                i,
                self.tasks@.len() as int,
            ) <= isize::MAX
    }
}

proof fn lemma_released_same_allocations(
    a: Seq<Option<TaskResourcesView>>,
    b: Seq<Option<TaskResourcesView>>,
    f: Seq<bool>,
    id: usize,
    k: int,
)
    requires
        a.len() == b.len(),
        0 <= k <= a.len(),
        forall|i: int|
            0 <= i < a.len() ==> (#[trigger] a[i] is Some) == (b[i] is Some) && (a[i] is Some
                ==> a[i].unwrap().allocation == b[i].unwrap().allocation),
    ensures
        released(a, f, id, k) == released(b, f, id, k),
    decreases k,
{
    if k > 0 {
        lemma_released_same_allocations(a, b, f, id, k - 1);
    }
}

/// For a process whose synchronisation state is well formed, whose tasks
/// only name its semaphores, and whose semaphores cannot overflow while
/// units are handed back, the deadlock check of a `down` by a live task on
/// an existing semaphore has all it needs.
pub proof fn lemma_down_check_ready(process: &Process, sem_id: usize, current: usize)
    requires
        process.sync_wf(),
        process.names_known_semaphores(),
        process.hand_back_fits(),
        process.has_semaphore(sem_id),
        process.has_task(current),
    ensures
        check_input_ok(
            semaphore_work(process.semaphore_list@),
            request_claims(process.tasks@, current, sem_id),
        ),
{
    let list = process.semaphore_list@;
    let tasks = process.tasks@;
    let w = semaphore_work(list);
    let cv = claims_view(tasks);
    let rc = request_claims(tasks, current, sem_id);
    let n = tasks.len() as int;
    lemma_slots_view(list);
    assert forall|i: int| 0 <= i < list.len() && #[trigger] list[i] is Some implies list[i].unwrap().semaphore_id == i by {
        assert(semaphores_view(list)[i] == Some(list[i].unwrap()@));
    }
    lemma_semaphore_work(list);
    assert(cv.len() == n);
    assert forall|t: int| 0 <= t < n implies (#[trigger] rc[t] is Some) == (cv[t] is Some) && (rc[t] is Some
        ==> rc[t].unwrap().allocation == cv[t].unwrap().allocation) by {}
    // needs
    assert forall|t: int, j: int|
        0 <= t < rc.len() && rc[t] is Some && 0 <= j < rc[t].unwrap().need.len()
            implies find_entry_spec(w, #[trigger] rc[t].unwrap().need[j].0) is Some by {
        let id = rc[t].unwrap().need[j].0;
        assert(tasks[t] is Some);
        if t == current && j == tasks[t].unwrap().need@.len() {
            assert(id == sem_id);
        } else {
            assert(id == tasks[t].unwrap().need@[j].0);
            assert(cv[t] == Some(tasks[t].unwrap()@));
            assert(task_names_known(semaphores_view(list), cv[t].unwrap()));
            assert(slot_used(semaphores_view(list), cv[t].unwrap().need[j].0));
        }
        assert(list[id as int] is Some);
    }
    // allocations
    assert forall|t: int, j: int|
        0 <= t < rc.len() && rc[t] is Some && 0 <= j < rc[t].unwrap().allocation.len()
            implies find_entry_spec(w, #[trigger] rc[t].unwrap().allocation[j].0) is Some by {
        let id = rc[t].unwrap().allocation[j].0;
        assert(tasks[t] is Some);
        assert(id == tasks[t].unwrap().allocation@[j].0);
        assert(cv[t] == Some(tasks[t].unwrap()@));
        assert(task_names_known(semaphores_view(list), cv[t].unwrap()));
        assert(slot_used(semaphores_view(list), cv[t].unwrap().allocation[j].0));
        assert(list[id as int] is Some);
    }
    assert forall|t: int, j: int|
        0 <= t < rc.len() && rc[t] is Some && 0 <= j < rc[t].unwrap().allocation.len()
            implies #[trigger] rc[t].unwrap().allocation[j].1 >= 0 by {
        assert(cv[t] matches Some(c) ==> crate::semaphore::task_wf(c));
        assert(cv[t] == Some(tasks[t].unwrap()@));
        assert(tasks[t].unwrap().allocation@[j].1 >= 1);
    }
    // bound
    assert forall|k: int| #![trigger w[k]] 0 <= k < w.len() implies w[k].1 + released(
        rc,
        all_finished(rc.len() as int),
        w[k].0,
        rc.len() as int,
    ) <= isize::MAX by {
        let id = w[k].0;
        lemma_released_same_allocations(rc, cv, all_finished(n), id, n);
        assert(process.has_semaphore(id));
    }
}

/// `l2` has the semaphores of `l1`, in the same slots and with the same
/// ids, each with a counter at least as high.
pub open spec fn more_units(l1: Seq<Option<Semaphore>>, l2: Seq<Option<Semaphore>>) -> bool {
    &&& l1.len() == l2.len()
    &&& forall|i: int|
        0 <= i < l1.len() ==> ((#[trigger] l1[i]) is Some) == (l2[i] is Some) && (l1[i] is Some ==> {
            &&& l2[i].unwrap().semaphore_id == l1[i].unwrap().semaphore_id
            &&& l2[i].unwrap().inner.count >= l1[i].unwrap().inner.count
        })
}

proof fn lemma_semaphore_work_more(l1: Seq<Option<Semaphore>>, l2: Seq<Option<Semaphore>>)
    requires
        more_units(l1, l2),
    ensures
        semaphore_work(l1).len() == semaphore_work(l2).len(),
        forall|k: int|
            0 <= k < semaphore_work(l1).len() ==> (#[trigger] semaphore_work(l2)[k]).0 == semaphore_work(l1)[k].0
                && semaphore_work(l2)[k].1 >= semaphore_work(l1)[k].1,
    decreases l1.len(),
{
    if l1.len() > 0 {
        let p1 = l1.drop_last();
        let p2 = l2.drop_last();
        assert forall|i: int| 0 <= i < p1.len() implies ((#[trigger] p1[i]) is Some) == (p2[i] is Some) && (p1[i] is Some ==> {
            &&& p2[i].unwrap().semaphore_id == p1[i].unwrap().semaphore_id
            &&& p2[i].unwrap().inner.count >= p1[i].unwrap().inner.count
        }) by {
            assert(p1[i] == l1[i] && p2[i] == l2[i]);
        }
        lemma_semaphore_work_more(p1, p2);
        assert(l1.last() == l1[l1.len() - 1]);
        assert(l2.last() == l2[l1.len() - 1]);
    }
}

/// More free units never cause a refusal: when a `down` is refused in a
/// state, it is refused in every state with the same tasks and the same
/// semaphores holding at most as many units.
pub proof fn lemma_refusal_needs_fewer_units(p1: &Process, p2: &Process, sem_id: usize, current: usize)
    requires
        more_units(p1.semaphore_list@, p2.semaphore_list@),
        claims_view(p1.tasks@) == claims_view(p2.tasks@),
        p1.has_task(current),
        p2.has_task(current),
        p1.deadlock_detection == p2.deadlock_detection,
    ensures
        down_refused(p2, sem_id, current) ==> down_refused(p1, sem_id, current),
{
    let t1 = p1.tasks@;
    let t2 = p2.tasks@;
    assert(claims_view(t1)[current as int] == Some(t1[current as int].unwrap()@));
    assert(claims_view(t2)[current as int] == Some(t2[current as int].unwrap()@));
    assert(request_claims(t1, current, sem_id) =~= request_claims(t2, current, sem_id));
    lemma_semaphore_work_more(p1.semaphore_list@, p2.semaphore_list@);
    lemma_more_units_stay_safe(
        semaphore_work(p1.semaphore_list@),
        semaphore_work(p2.semaphore_list@),
        request_claims(t1, current, sem_id),
    );
}

fn copy_list(list: &Vec<(usize, isize)>) -> (r: Vec<(usize, isize)>)
    ensures
        r@ == list@,
{
    let mut r: Vec<(usize, isize)> = Vec::new();
    for i in 0..list.len()
        invariant
            r@ == list@.take(i as int),
    {
        r.push(list[i]);
        assert(r@ =~= list@.take(i + 1));
    }
    assert(list@.take(list@.len() as int) =~= list@);
    r
}

fn build_work(list: &Vec<Option<Semaphore>>) -> (work: Vec<(usize, isize)>)
    ensures
        work@ == semaphore_work(list@),
{
    let mut work: Vec<(usize, isize)> = Vec::new();
    for i in 0..list.len()
        invariant
            work@ == semaphore_work(list@.take(i as int)),
    {
        assert(list@.take(i + 1).drop_last() =~= list@.take(i as int));
        match &list[i] {
            Some(sem) => {
                let c = sem.inner.count;
                work.push((sem.semaphore_id, if c < 0 { 0 } else { c }));
            },
            None => {},
        }
    }
    assert(list@.take(list@.len() as int) =~= list@);
    work
}

fn build_claims(tasks: &Vec<Option<TaskResources>>, current: usize, sem_id: usize) -> (claims: Vec<
    Option<TaskResources>,
>)
    requires
        current < tasks@.len(),
        tasks@[current as int] is Some,
    ensures
        claims_view(claims@) == request_claims(tasks@, current, sem_id),
{
    let mut claims: Vec<Option<TaskResources>> = Vec::new();
    for i in 0..tasks.len()
        invariant
            current < tasks@.len(),
            tasks@[current as int] is Some,
            claims@.len() == i,
            forall|j: int|
                0 <= j < i ==> #[trigger] claims_view(claims@)[j] == request_claims(tasks@, current, sem_id)[j],
    {
        let ghost prev = claims@;
        match &tasks[i] {
            Some(task) => {
                let mut need = copy_list(&task.need);
                if i == current {
                    need.push((sem_id, 1));
                }
                let allocation = copy_list(&task.allocation);
                claims.push(Some(TaskResources { need, allocation }));
            },
            None => {
                claims.push(None);
            },
        }
        proof {
            assert forall|j: int| 0 <= j < i + 1 implies #[trigger] claims_view(claims@)[j] == request_claims(tasks@, current, sem_id)[j] by {
                if j < i {
                    assert(claims@[j] == prev[j]);
                    assert(claims_view(prev)[j] == request_claims(tasks@, current, sem_id)[j]);
                } else {
                    assert(claims_view(claims@)[j] == match claims@[j] {
                        Some(t) => Some(t@),
                        None => None,
                    });
                }
            }
        }
    }
    assert(claims_view(claims@) =~= request_claims(tasks@, current, sem_id));
    claims
}

/// Acquires one unit of semaphore `sem_id` for thread `current`.
///
/// With deadlock detection on, the request is first checked: if granting it
/// (counting it as a need of one unit of the semaphore for `current`) leaves
/// no safe sequence, nothing changes and `-0xDEAD` is returned. Otherwise
/// the semaphore's `down` runs, and the kernel must block `current` when no
/// unit was free.
pub fn sys_semaphore_down(process: &mut Process, sem_id: usize, current: usize) -> (r: SyscallReply)
    requires
        old(process).has_semaphore(sem_id),
        old(process).has_task(current),
        old(process).semaphore(sem_id).count > isize::MIN,
        if old(process).semaphore(sem_id).down_blocks() {
            can_increment(old(process).tasks@[current as int].unwrap().need@, old(process).semaphore(sem_id).id)
        } else {
            can_increment(
                old(process).tasks@[current as int].unwrap().allocation@,
                old(process).semaphore(sem_id).id,
            )
        },
        old(process).deadlock_detection ==> check_input_ok(
            semaphore_work(old(process).semaphore_list@),
            request_claims(old(process).tasks@, current, sem_id),
        ),
    ensures
        !old(process).deadlock_detection ==> r.ret == 0,
        down_refused(old(process), sem_id, current) ==> {
            &&& r.ret == DEADLOCK_ERROR
            &&& r.action == KernelAction::Nothing
            &&& semaphores_view(final(process).semaphore_list@) == semaphores_view(old(process).semaphore_list@)
            &&& claims_view(final(process).tasks@) == claims_view(old(process).tasks@)
        },
        !down_refused(old(process), sem_id, current) ==> {
            let s = old(process).semaphore(sem_id);
            &&& r.ret == 0
            &&& r.action == if s.down_blocks() {
                KernelAction::BlockCurrent
            } else {
                KernelAction::Nothing
            }
            &&& semaphores_view(final(process).semaphore_list@) == semaphores_view(old(process).semaphore_list@).update(
                sem_id as int,
                Some(s.after_down(current)),
            )
            &&& claims_view(final(process).tasks@) == claims_view(old(process).tasks@).update(
                current as int,
                Some(task_after_down(old(process).tasks@[current as int].unwrap()@, s.id, s.down_blocks())),
            )
        },
        same_but_semaphores(old(process), final(process)),
        old(process).sync_wf() ==> final(process).sync_wf(),
        old(process).sync_wf() && old(process).names_known_semaphores()
            ==> final(process).names_known_semaphores(),
{
    if process.deadlock_detection {
        let work = build_work(&process.semaphore_list);
        let claims = build_claims(&process.tasks, current, sem_id);
        if !is_safe_state(work, &claims) {
            return SyscallReply { ret: DEADLOCK_ERROR, action: KernelAction::Nothing };
        }
    }
    let ghost old_list = process.semaphore_list@;
    let blocked = match &mut process.semaphore_list[sem_id] {
        Some(sem) => sem.down(&mut process.tasks, current),
        None => false,
    };
    proof {
        assert(semaphores_view(process.semaphore_list@) =~= semaphores_view(old_list).update(
            sem_id as int,
            Some(old(process).semaphore(sem_id).after_down(current)),
        ));
        if old(process).sync_wf() {
            let sv = old(process).semaphore(sem_id);
            lemma_down_balanced(sv, current);
            assert(semaphores_view(old_list)[sem_id as int] == Some(sv));
            lemma_semaphores_wf_update(semaphores_view(old_list), sem_id as int, sv.after_down(current));
            if old(process).names_known_semaphores() {
                let ov = semaphores_view(old_list);
                let ot = old(process).tasks@[current as int].unwrap()@;
                assert(claims_view(old(process).tasks@)[current as int] == Some(ot));
                lemma_names_known_after_down(ov, ot, sv.id, sv.down_blocks());
                let nc = claims_view(old(process).tasks@).update(
                    current as int,
                    Some(task_after_down(ot, sv.id, sv.down_blocks())),
                );
                lemma_names_known_update(ov, claims_view(old(process).tasks@), current as int, task_after_down(ot, sv.id, sv.down_blocks()));
                lemma_names_known_same_slots(ov, sem_id as int, sv.after_down(current), nc);
            }
        }
    }
    if blocked {
        SyscallReply { ret: 0, action: KernelAction::BlockCurrent }
    } else {
        SyscallReply { ret: 0, action: KernelAction::Nothing }
    }
}

/// Creates a condition variable in the first free slot of the table, or in
/// a new slot at its end, and returns the slot.
pub fn sys_condvar_create(process: &mut Process) -> (r: SyscallReply)
    ensures
        final(process).condvar_list@ == fill_slot(old(process).condvar_list@, Condvar),
        r.ret == slot_for(old(process).condvar_list@) as usize as isize,
        r.action == KernelAction::Nothing,
        final(process).pid == old(process).pid,
        final(process).children@ == old(process).children@,
        final(process).mutex_list@ == old(process).mutex_list@,
        semaphores_view(final(process).semaphore_list@) == semaphores_view(old(process).semaphore_list@),
        claims_view(final(process).tasks@) == claims_view(old(process).tasks@),
        final(process).deadlock_detection == old(process).deadlock_detection,
        old(process).sync_wf() ==> final(process).sync_wf(),
        old(process).names_known_semaphores() ==> final(process).names_known_semaphores(),
{
    let id = match find_free_slot(&process.condvar_list) {
        Some(id) => {
            process.condvar_list.set(id, Some(Condvar::new()));
            id
        },
        None => {
            process.condvar_list.push(Some(Condvar::new()));
            process.condvar_list.len() - 1
        },
    };
    SyscallReply { ret: id as isize, action: KernelAction::Nothing }
}

/// Signals condition variable `condvar_id`.
pub fn sys_condvar_signal(process: &Process, condvar_id: usize) -> (r: SyscallReply)
    requires
        process.has_condvar(condvar_id),
    ensures
        r.ret == 0,
        r.action == KernelAction::SignalCondvar(condvar_id),
{
    SyscallReply { ret: 0, action: KernelAction::SignalCondvar(condvar_id) }
}

/// Waits on condition variable `condvar_id`, releasing mutex `mutex_id`.
pub fn sys_condvar_wait(process: &Process, condvar_id: usize, mutex_id: usize) -> (r: SyscallReply)
    requires
        process.has_condvar(condvar_id),
        process.has_mutex(mutex_id),
    ensures
        r.ret == 0,
        r.action == (KernelAction::WaitCondvar { condvar_id, mutex_id }),
{
    SyscallReply { ret: 0, action: KernelAction::WaitCondvar { condvar_id, mutex_id } }
}

/// Turns deadlock detection on (`enabled == 1`) or off (`enabled == 0`)
/// and returns 0; any other value is refused with -1.
pub fn sys_enable_deadlock_detect(process: &mut Process, enabled: usize) -> (r: isize)
    ensures
        enabled == 1 ==> r == 0 && final(process).deadlock_detection,
        enabled == 0 ==> r == 0 && !final(process).deadlock_detection,
        enabled != 0 && enabled != 1 ==> r == -1 && final(process).deadlock_detection
            == old(process).deadlock_detection,
        final(process).pid == old(process).pid,
        final(process).children@ == old(process).children@,
        final(process).mutex_list@ == old(process).mutex_list@,
        semaphores_view(final(process).semaphore_list@) == semaphores_view(old(process).semaphore_list@),
        final(process).condvar_list@ == old(process).condvar_list@,
        claims_view(final(process).tasks@) == claims_view(old(process).tasks@),
        old(process).sync_wf() ==> final(process).sync_wf(),
        old(process).names_known_semaphores() ==> final(process).names_known_semaphores(),
{
    if enabled == 1 {
        process.deadlock_detection = true;
        return 0;
    } else if enabled == 0 {
        process.deadlock_detection = false;
        return 0;
    } else {
        return -1;
    }
}

} // verus!
