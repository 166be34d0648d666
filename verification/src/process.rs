//! The state of a process that the system calls read and change, and the
//! replies they give to the kernel that runs them.
use vstd::prelude::*;
use crate::semaphore::{Semaphore, SemaphoreView};
use crate::semaphore::{semaphores_wf, tasks_wf};
use crate::task::{claims_view, TaskResources};

verus! {

/// Return value of a system call that deadlock detection refuses.
pub const DEADLOCK_ERROR: isize = -0xDEAD;

/// The two kinds of mutex a process can create.
#[derive(Debug, Clone, Copy, PartialEq, Eq, Structural)]
pub enum MutexKind {
    /// Busy-waiting mutex.
    Spin,
    /// Mutex that blocks waiting tasks.
    Blocking,
}

/// A condition variable slot.
#[derive(Debug, Clone, Copy, PartialEq, Eq, Structural)]
pub struct Condvar;

impl Condvar {
    /// A new condition variable.
    pub fn new() -> Condvar {
        Condvar
    }
}

/// What the parent knows of a child process.
#[derive(Debug, Clone, Copy, PartialEq, Eq, Structural)]
pub struct ChildProcess {
    pub pid: usize,
    /// The child has exited and waits to be reaped.
    pub is_zombie: bool,
    pub exit_code: i32,
}

/// The state of one process.
pub struct Process {
    pub pid: usize,
    pub children: Vec<ChildProcess>,
    pub mutex_list: Vec<Option<MutexKind>>,
    pub semaphore_list: Vec<Option<Semaphore>>,
    pub condvar_list: Vec<Option<Condvar>>,
    /// Resource lists of the process's tasks, indexed by thread id; `None`
    /// where there is no live task.
    pub tasks: Vec<Option<TaskResources>>,
    pub deadlock_detection: bool,
}

/// Work the kernel carries out after a system call has decided.
#[derive(Debug)]
pub enum KernelAction {
    /// Nothing further: hand `ret` back to the caller.
    Nothing,
    /// Exit the current task with the code.
    ExitCurrent(i32),
    /// Suspend the current task and run the next one.
    SuspendCurrent,
    /// Put the new task with this pid on the ready queue.
    AddTask(usize),
    /// Replace the current task's program by the app with this index.
    Exec(usize),
    /// Build a new task with this pid from the app's image and schedule it.
    Spawn { pid: usize, app: usize },
    /// Store the exit code at the caller's pointer.
    WriteExitCode(i32),
    /// Store the seconds and the microseconds of a time at these physical
    /// addresses.
    WriteTimeVal { sec_pa: usize, usec_pa: usize, sec: usize, usec: usize },
    /// Map a fresh framed area over these virtual addresses.
    InsertFramedArea { start_va: usize, end_va: usize, permission: u8 },
    /// Unmap the areas of the memory set at these positions.
    UnmapAreas(Vec<usize>),
    /// Block the current task until the time (in ms).
    Sleep(usize),
    /// Block the current task; it waits on a semaphore.
    BlockCurrent,
    /// Wake the task in this slot.
    Wakeup(usize),
    LockMutex(usize),
    UnlockMutex(usize),
    SignalCondvar(usize),
    WaitCondvar { condvar_id: usize, mutex_id: usize },
}

/// The value a system call returns and the work left to the kernel.
#[derive(Debug)]
pub struct SyscallReply {
    pub ret: isize,
    pub action: KernelAction,
}

/// Position of the first free slot, if any.
pub open spec fn first_free<T>(slots: Seq<Option<T>>) -> Option<int> {
    if exists|k: int| is_first_free(slots, k) {
        Some(choose|k: int| is_first_free(slots, k))
    } else {
        None
    }
}

/// `k` is the first free slot.
pub open spec fn is_first_free<T>(slots: Seq<Option<T>>, k: int) -> bool {
    &&& 0 <= k < slots.len()
    &&& slots[k] is None
    &&& forall|j: int| 0 <= j < k ==> slots[j] is Some
}

/// Finds the first free slot of a table.
pub fn find_free_slot<T>(slots: &Vec<Option<T>>) -> (r: Option<usize>)
    ensures
        match r {
            Some(k) => first_free(slots@) == Some(k as int),
            None => first_free(slots@) == None::<int>,
        },
{
    let mut k: usize = 0;
    while k < slots.len()
        invariant
            k <= slots.len(),
            forall|j: int| 0 <= j < k ==> slots@[j] is Some,
        decreases slots.len() - k,
    {
        if slots[k].is_none() {
            proof {
                let c = choose|c: int| is_first_free(slots@, c);
                assert(is_first_free(slots@, k as int));
                if c < k {
                    assert(slots@[c] is Some);
                }
                if k < c {
                    assert(slots@[k as int] is Some);
                }
            }
            return Some(k);
        }
        k = k + 1;
    }
    None
}

/// The slot a table fills with a new object: the first free one, or a new
/// one at the end.
pub open spec fn slot_for<T>(slots: Seq<Option<T>>) -> int {
    match first_free(slots) {
        Some(k) => k,
        None => slots.len() as int,
    }
}

/// The table after the new object `x` is put into [`slot_for`].
pub open spec fn fill_slot<T>(slots: Seq<Option<T>>, x: T) -> Seq<Option<T>> {
    match first_free(slots) {
        Some(k) => slots.update(k, Some(x)),
        None => slots.push(Some(x)),
    }
}

/// The views of a table of semaphores.
pub open spec fn semaphores_view(list: Seq<Option<Semaphore>>) -> Seq<Option<SemaphoreView>> {
    list.map_values(
        |o: Option<Semaphore>|
            match o {
                Some(s) => Some(s@),
                None => None,
            },
    )
}

/// A new object never lands on an occupied slot: every occupied slot keeps
/// its object, and the new object sits in [`slot_for`].
pub proof fn lemma_fill_slot_keeps_occupied<T>(slots: Seq<Option<T>>, x: T, i: int)
    requires
        0 <= i < slots.len(),
        slots[i] is Some,
    ensures
        slot_for(slots) != i,
        fill_slot(slots, x)[i] == slots[i],
        fill_slot(slots, x)[slot_for(slots)] == Some(x),
{
    if let Some(k) = first_free(slots) {
        let c = choose|c: int| is_first_free(slots, c);
        assert(is_first_free(slots, c));
    }
}

impl Process {
    /// The semaphore slot `sem_id` holds a semaphore.
    pub open spec fn has_semaphore(&self, sem_id: usize) -> bool {
        sem_id < self.semaphore_list@.len() && self.semaphore_list@[sem_id as int] is Some
    }

    /// The semaphore in slot `sem_id`.
    pub open spec fn semaphore(&self, sem_id: usize) -> SemaphoreView {
        self.semaphore_list@[sem_id as int].unwrap()@
    }

    /// The mutex slot `mutex_id` holds a mutex.
    pub open spec fn has_mutex(&self, mutex_id: usize) -> bool {
        mutex_id < self.mutex_list@.len() && self.mutex_list@[mutex_id as int] is Some
    }

    /// The condition variable slot `condvar_id` holds one.
    pub open spec fn has_condvar(&self, condvar_id: usize) -> bool {
        condvar_id < self.condvar_list@.len() && self.condvar_list@[condvar_id as int] is Some
    }

    /// What the synchronisation calls keep: each semaphore sits in the slot
    /// named by its id and has exactly as many waiters as its counter is
    /// below zero, and each task's resource lists have distinct ids and
    /// positive counts.
    pub open spec fn sync_wf(&self) -> bool {
        semaphores_wf(semaphores_view(self.semaphore_list@)) && tasks_wf(claims_view(self.tasks@))
    }

    /// Thread `tid` has a live task.
    pub open spec fn has_task(&self, tid: usize) -> bool {
        tid < self.tasks@.len() && self.tasks@[tid as int] is Some
    }
}

} // verus!
