use lib::process::{Condvar, KernelAction, MutexKind, Process, DEADLOCK_ERROR};
use lib::syscall_sync::{
    sys_condvar_create, sys_condvar_signal, sys_condvar_wait, sys_enable_deadlock_detect,
    sys_mutex_create, sys_mutex_lock, sys_mutex_unlock, sys_semaphore_create,
    sys_semaphore_down, sys_semaphore_up, sys_sleep,
};
use lib::task::TaskResources;

fn empty_task() -> Option<TaskResources> {
    Some(TaskResources { need: Vec::new(), allocation: Vec::new() })
}

fn process(tasks: usize) -> Process {
    let mut t = Vec::new();
    for _ in 0..tasks {
        t.push(empty_task());
    }
    Process {
        pid: 1,
        children: Vec::new(),
        mutex_list: Vec::new(),
        semaphore_list: Vec::new(),
        condvar_list: Vec::new(),
        tasks: t,
        deadlock_detection: false,
    }
}

fn task(p: &Process, tid: usize) -> &TaskResources {
    p.tasks[tid].as_ref().unwrap()
}

#[test]
fn sleep_blocks_until_expiry() {
    let r = sys_sleep(1000, 250);
    assert_eq!(r.ret, 0);
    assert!(matches!(r.action, KernelAction::Sleep(1250)));
}

#[test]
fn mutex_create_fills_first_free_slot() {
    let mut p = process(1);
    assert_eq!(sys_mutex_create(&mut p, false).ret, 0);
    assert_eq!(sys_mutex_create(&mut p, true).ret, 1);
    assert_eq!(sys_mutex_create(&mut p, true).ret, 2);
    p.mutex_list[1] = None;
    assert_eq!(sys_mutex_create(&mut p, false).ret, 1);
    assert_eq!(
        p.mutex_list,
        vec![Some(MutexKind::Spin), Some(MutexKind::Spin), Some(MutexKind::Blocking)]
    );
}

#[test]
fn mutex_lock_refused_when_held_under_detection() {
    let mut p = process(1);
    sys_mutex_create(&mut p, true);
    let r = sys_mutex_lock(&p, 0, true);
    assert_eq!(r.ret, 0);
    assert!(matches!(r.action, KernelAction::LockMutex(0)));
    assert_eq!(sys_enable_deadlock_detect(&mut p, 1), 0);
    let r = sys_mutex_lock(&p, 0, true);
    assert_eq!(r.ret, DEADLOCK_ERROR);
    assert_eq!(r.ret, -0xDEAD);
    assert!(matches!(r.action, KernelAction::Nothing));
    let r = sys_mutex_lock(&p, 0, false);
    assert_eq!(r.ret, 0);
    assert!(matches!(r.action, KernelAction::LockMutex(0)));
}

#[test]
fn mutex_unlock_releases() {
    let mut p = process(1);
    sys_mutex_create(&mut p, false);
    let r = sys_mutex_unlock(&p, 0);
    assert_eq!(r.ret, 0);
    assert!(matches!(r.action, KernelAction::UnlockMutex(0)));
}

#[test]
fn semaphore_create_uses_slot_as_id() {
    let mut p = process(1);
    assert_eq!(sys_semaphore_create(&mut p, 2).ret, 0);
    assert_eq!(sys_semaphore_create(&mut p, 0).ret, 1);
    p.semaphore_list[0] = None;
    assert_eq!(sys_semaphore_create(&mut p, 5).ret, 0);
    let s = p.semaphore_list[0].as_ref().unwrap();
    assert_eq!(s.semaphore_id, 0);
    assert_eq!(s.inner.count, 5);
    assert!(s.inner.wait_queue.is_empty());
    assert_eq!(p.semaphore_list[1].as_ref().unwrap().semaphore_id, 1);
}

#[test]
fn semaphore_down_with_free_unit_records_allocation() {
    let mut p = process(2);
    sys_semaphore_create(&mut p, 2);
    let r = sys_semaphore_down(&mut p, 0, 1);
    assert_eq!(r.ret, 0);
    assert!(matches!(r.action, KernelAction::Nothing));
    let r = sys_semaphore_down(&mut p, 0, 1);
    assert!(matches!(r.action, KernelAction::Nothing));
    assert_eq!(task(&p, 1).allocation, vec![(0, 2)]);
    assert!(task(&p, 1).need.is_empty());
    assert_eq!(p.semaphore_list[0].as_ref().unwrap().inner.count, 0);
}

#[test]
fn semaphore_down_without_unit_blocks_and_records_need() {
    let mut p = process(2);
    sys_semaphore_create(&mut p, 0);
    let r = sys_semaphore_down(&mut p, 0, 1);
    assert_eq!(r.ret, 0);
    assert!(matches!(r.action, KernelAction::BlockCurrent));
    assert_eq!(task(&p, 1).need, vec![(0, 1)]);
    let s = p.semaphore_list[0].as_ref().unwrap();
    assert_eq!(s.inner.count, -1);
    assert_eq!(s.inner.wait_queue.iter().copied().collect::<Vec<usize>>(), vec![1]);
}

#[test]
fn semaphore_up_wakes_first_waiter() {
    let mut p = process(3);
    sys_semaphore_create(&mut p, 0);
    sys_semaphore_down(&mut p, 0, 2);
    sys_semaphore_down(&mut p, 0, 1);
    let r = sys_semaphore_up(&mut p, 0);
    assert_eq!(r.ret, 0);
    assert!(matches!(r.action, KernelAction::Wakeup(2)));
    assert!(task(&p, 2).need.is_empty());
    assert_eq!(task(&p, 2).allocation, vec![(0, 1)]);
    assert_eq!(task(&p, 1).need, vec![(0, 1)]);
    assert_eq!(p.semaphore_list[0].as_ref().unwrap().inner.count, -1);
    let r = sys_semaphore_up(&mut p, 0);
    assert!(matches!(r.action, KernelAction::Wakeup(1)));
    let r = sys_semaphore_up(&mut p, 0);
    assert!(matches!(r.action, KernelAction::Nothing));
    assert_eq!(p.semaphore_list[0].as_ref().unwrap().inner.count, 1);
}

#[test]
fn detection_allows_safe_request() {
    let mut p = process(2);
    sys_semaphore_create(&mut p, 1);
    sys_semaphore_create(&mut p, 1);
    sys_semaphore_down(&mut p, 0, 0);
    sys_semaphore_down(&mut p, 1, 1);
    assert_eq!(sys_enable_deadlock_detect(&mut p, 1), 0);
    let r = sys_semaphore_down(&mut p, 1, 0);
    assert_eq!(r.ret, 0);
    assert!(matches!(r.action, KernelAction::BlockCurrent));
    assert_eq!(task(&p, 0).need, vec![(1, 1)]);
}

#[test]
fn detection_refuses_circular_wait() {
    let mut p = process(2);
    sys_semaphore_create(&mut p, 1);
    sys_semaphore_create(&mut p, 1);
    sys_semaphore_down(&mut p, 0, 0);
    sys_semaphore_down(&mut p, 1, 1);
    sys_enable_deadlock_detect(&mut p, 1);
    sys_semaphore_down(&mut p, 1, 0);
    let r = sys_semaphore_down(&mut p, 0, 1);
    assert_eq!(r.ret, -0xDEAD);
    assert!(matches!(r.action, KernelAction::Nothing));
    assert!(task(&p, 1).need.is_empty());
    assert_eq!(task(&p, 1).allocation, vec![(1, 1)]);
    assert_eq!(p.semaphore_list[0].as_ref().unwrap().inner.count, 0);
}

#[test]
fn circular_wait_blocks_without_detection() {
    let mut p = process(2);
    sys_semaphore_create(&mut p, 1);
    sys_semaphore_create(&mut p, 1);
    sys_semaphore_down(&mut p, 0, 0);
    sys_semaphore_down(&mut p, 1, 1);
    sys_semaphore_down(&mut p, 1, 0);
    let r = sys_semaphore_down(&mut p, 0, 1);
    assert_eq!(r.ret, 0);
    assert!(matches!(r.action, KernelAction::BlockCurrent));
}

#[test]
fn condvar_create_fills_first_free_slot() {
    let mut p = process(1);
    assert_eq!(sys_condvar_create(&mut p).ret, 0);
    assert_eq!(sys_condvar_create(&mut p).ret, 1);
    p.condvar_list[0] = None;
    assert_eq!(sys_condvar_create(&mut p).ret, 0);
    assert_eq!(p.condvar_list, vec![Some(Condvar), Some(Condvar)]);
}

#[test]
fn condvar_signal_and_wait() {
    let mut p = process(1);
    sys_condvar_create(&mut p);
    sys_mutex_create(&mut p, true);
    let r = sys_condvar_signal(&p, 0);
    assert_eq!(r.ret, 0);
    assert!(matches!(r.action, KernelAction::SignalCondvar(0)));
    let r = sys_condvar_wait(&p, 0, 0);
    assert_eq!(r.ret, 0);
    assert!(matches!(r.action, KernelAction::WaitCondvar { condvar_id: 0, mutex_id: 0 }));
}

#[test]
fn deadlock_detect_switch() {
    let mut p = process(1);
    assert_eq!(sys_enable_deadlock_detect(&mut p, 1), 0);
    assert!(p.deadlock_detection);
    assert_eq!(sys_enable_deadlock_detect(&mut p, 2), -1);
    assert!(p.deadlock_detection);
    assert_eq!(sys_enable_deadlock_detect(&mut p, 0), 0);
    assert!(!p.deadlock_detection);
    assert_eq!(sys_enable_deadlock_detect(&mut p, 7), -1);
    assert!(!p.deadlock_detection);
}

fn list_ok(l: &Vec<(usize, isize)>) -> bool {
    for i in 0..l.len() {
        if l[i].1 < 1 {
            return false;
        }
        for j in 0..l.len() {
            if i != j && l[i].0 == l[j].0 {
                return false;
            }
        }
    }
    true
}

#[test]
fn sync_state_stays_well_formed() {
    let mut p = process(3);
    sys_semaphore_create(&mut p, 1);
    sys_semaphore_create(&mut p, 0);
    sys_semaphore_create(&mut p, 2);
    p.semaphore_list[1] = None;
    sys_semaphore_create(&mut p, 0);
    sys_semaphore_down(&mut p, 0, 0);
    sys_semaphore_down(&mut p, 0, 1);
    sys_semaphore_down(&mut p, 2, 1);
    sys_semaphore_down(&mut p, 2, 2);
    sys_semaphore_down(&mut p, 2, 2);
    sys_semaphore_up(&mut p, 0);
    sys_semaphore_up(&mut p, 1);
    for (i, s) in p.semaphore_list.iter().enumerate() {
        let s = s.as_ref().unwrap();
        assert_eq!(s.semaphore_id, i);
        let waiting = if s.inner.count < 0 { (-s.inner.count) as usize } else { 0 };
        assert_eq!(s.inner.wait_queue.len(), waiting);
    }
    for t in p.tasks.iter() {
        let t = t.as_ref().unwrap();
        assert!(list_ok(&t.need));
        assert!(list_ok(&t.allocation));
    }
    assert_eq!(task(&p, 1).allocation, vec![(2, 1), (0, 1)]);
}

fn held(p: &Process, id: usize) -> isize {
    let mut total = 0;
    for t in p.tasks.iter().flatten() {
        for (i, c) in t.allocation.iter() {
            if *i == id {
                total += *c;
            }
        }
    }
    total
}

#[test]
fn down_conserves_units_and_up_adds_one() {
    let mut p = process(3);
    sys_semaphore_create(&mut p, 2);
    let units = |p: &Process| {
        let c = p.semaphore_list[0].as_ref().unwrap().inner.count;
        (if c < 0 { 0 } else { c }) + held(p, 0)
    };
    assert_eq!(units(&p), 2);
    sys_semaphore_down(&mut p, 0, 0);
    sys_semaphore_down(&mut p, 0, 1);
    sys_semaphore_down(&mut p, 0, 2);
    assert_eq!(units(&p), 2);
    sys_semaphore_up(&mut p, 0);
    assert_eq!(units(&p), 3);
    sys_semaphore_up(&mut p, 0);
    assert_eq!(units(&p), 4);
}

#[test]
fn created_mutex_keeps_its_slot() {
    let mut p = process(1);
    let a = sys_mutex_create(&mut p, true).ret;
    let b = sys_mutex_create(&mut p, false).ret;
    assert_ne!(a, b);
    assert_eq!(p.mutex_list[a as usize], Some(MutexKind::Blocking));
    assert_eq!(p.mutex_list[b as usize], Some(MutexKind::Spin));
}

#[test]
fn more_free_units_avoid_refusal() {
    let mut p = process(2);
    sys_semaphore_create(&mut p, 1);
    sys_semaphore_create(&mut p, 2);
    sys_semaphore_down(&mut p, 0, 0);
    sys_semaphore_down(&mut p, 1, 1);
    sys_semaphore_down(&mut p, 1, 1);
    sys_enable_deadlock_detect(&mut p, 1);
    sys_semaphore_down(&mut p, 1, 0);
    assert_eq!(sys_semaphore_down(&mut p, 0, 1).ret, -0xDEAD);
    p.semaphore_list[0].as_mut().unwrap().inner.count = 1;
    assert_eq!(sys_semaphore_down(&mut p, 0, 1).ret, 0);
}
