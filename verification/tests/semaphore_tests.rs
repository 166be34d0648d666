use lib::deadlock::is_safe_state;
use lib::semaphore::Semaphore;
use lib::task::{find_entry, increment_entry, release_entry, TaskResources};

fn tasks(n: usize) -> Vec<Option<TaskResources>> {
    let mut v = Vec::new();
    for _ in 0..n {
        v.push(Some(TaskResources { need: Vec::new(), allocation: Vec::new() }));
    }
    v
}

fn queue(s: &Semaphore) -> Vec<usize> {
    s.inner.wait_queue.iter().copied().collect()
}

fn balanced(s: &Semaphore) -> bool {
    let expected = if s.inner.count < 0 { (-s.inner.count) as usize } else { 0 };
    s.inner.wait_queue.len() == expected
}

#[test]
fn new_semaphore_is_idle() {
    let s = Semaphore::new(4, 3);
    assert_eq!(s.semaphore_id, 4);
    assert_eq!(s.inner.count, 3);
    assert!(queue(&s).is_empty());
    assert!(balanced(&s));
}

#[test]
fn queue_tracks_negative_count() {
    let mut t = tasks(4);
    let mut s = Semaphore::new(0, 1);
    assert!(!s.down(&mut t, 0));
    assert!(s.down(&mut t, 1));
    assert!(s.down(&mut t, 2));
    assert!(balanced(&s));
    assert_eq!(queue(&s), vec![1, 2]);
    assert_eq!(s.up(&mut t), Some(1));
    assert!(balanced(&s));
    assert_eq!(s.up(&mut t), Some(2));
    assert_eq!(s.up(&mut t), None);
    assert!(balanced(&s));
    assert_eq!(s.inner.count, 1);
}

#[test]
fn up_undoes_down() {
    let mut t = tasks(2);
    let mut s = Semaphore::new(0, 2);
    assert!(!s.down(&mut t, 0));
    assert_eq!(s.up(&mut t), None);
    assert_eq!(s.inner.count, 2);
    assert!(queue(&s).is_empty());
    let mut z = Semaphore::new(1, 0);
    assert!(z.down(&mut t, 1));
    assert_eq!(z.up(&mut t), Some(1));
    assert_eq!(z.inner.count, 0);
    assert!(queue(&z).is_empty());
}

#[test]
fn wakeup_moves_need_to_allocation() {
    let mut t = tasks(1);
    let mut s = Semaphore::new(6, 0);
    assert!(s.down(&mut t, 0));
    assert_eq!(t[0].as_ref().unwrap().need, vec![(6, 1)]);
    assert_eq!(s.up(&mut t), Some(0));
    assert!(t[0].as_ref().unwrap().need.is_empty());
    assert_eq!(t[0].as_ref().unwrap().allocation, vec![(6, 1)]);
}

#[test]
fn resource_list_operations() {
    let mut l = vec![(3, 1), (5, 2)];
    assert_eq!(find_entry(&l, 5), Some(1));
    assert_eq!(find_entry(&l, 4), None);
    increment_entry(&mut l, 5);
    increment_entry(&mut l, 9);
    assert_eq!(l, vec![(3, 1), (5, 3), (9, 1)]);
    release_entry(&mut l, 3);
    release_entry(&mut l, 8);
    assert_eq!(l, vec![(5, 3), (9, 1)]);
}

fn claim(need: Vec<(usize, isize)>, allocation: Vec<(usize, isize)>) -> Option<TaskResources> {
    Some(TaskResources { need, allocation })
}

#[test]
fn safe_state_needs_hand_back_chain() {
    let work = vec![(0, 0), (1, 1)];
    let claims = vec![
        claim(vec![(0, 2)], vec![(1, 1)]),
        None,
        claim(vec![(1, 1)], vec![(0, 2)]),
    ];
    assert!(is_safe_state(work, &claims));
}

#[test]
fn unsafe_state_detected() {
    let work = vec![(0, 0), (1, 0)];
    let claims = vec![claim(vec![(1, 1)], vec![(0, 1)]), claim(vec![(0, 1)], vec![(1, 1)])];
    assert!(!is_safe_state(work, &claims));
}

#[test]
fn safety_does_not_depend_on_slot_order() {
    let a = claim(vec![(0, 2)], vec![(0, 1)]);
    let b = claim(vec![(0, 1)], vec![(0, 1)]);
    let c = claim(vec![(0, 3)], vec![]);
    let work = vec![(0, 1)];
    let order1 = vec![a.clone_claim(), b.clone_claim(), c.clone_claim()];
    let order2 = vec![c.clone_claim(), a.clone_claim(), b.clone_claim()];
    assert!(is_safe_state(work.clone(), &order1));
    assert!(is_safe_state(work.clone(), &order2));
    let d = claim(vec![(0, 4)], vec![]);
    assert!(!is_safe_state(work.clone(), &vec![a.clone_claim(), d.clone_claim()]));
    assert!(!is_safe_state(work, &vec![d.clone_claim(), a.clone_claim()]));
}

trait CloneClaim {
    fn clone_claim(&self) -> Option<TaskResources>;
}

impl CloneClaim for Option<TaskResources> {
    fn clone_claim(&self) -> Option<TaskResources> {
        self.as_ref().map(|t| TaskResources { need: t.need.clone(), allocation: t.allocation.clone() })
    }
}

#[test]
fn empty_state_is_safe() {
    assert!(is_safe_state(Vec::new(), &Vec::new()));
    assert!(is_safe_state(vec![(0, 0)], &vec![None, None]));
}
