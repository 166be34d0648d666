use lib::mm::{PageTable, PageTableEntry};
use lib::process::{ChildProcess, KernelAction, Process};
use lib::syscall_process::{
    sys_exec, sys_exit, sys_fork, sys_get_time, sys_getpid, sys_mmap, sys_munmap, sys_sbrk,
    sys_set_priority, sys_spawn, sys_waitpid, time_val_from_us, AppTable, MemorySet, TimeVal,
    TrapContext, VpnRange,
};

fn process_with(children: Vec<ChildProcess>) -> Process {
    Process {
        pid: 7,
        children,
        mutex_list: Vec::new(),
        semaphore_list: Vec::new(),
        condvar_list: Vec::new(),
        tasks: Vec::new(),
        deadlock_detection: false,
    }
}

fn child(pid: usize, is_zombie: bool, exit_code: i32) -> ChildProcess {
    ChildProcess { pid, is_zombie, exit_code }
}

fn apps() -> AppTable {
    AppTable { names: vec![b"hello".to_vec(), b"user_shell".to_vec(), b"hello".to_vec()] }
}

#[test]
fn exit_hands_code_to_kernel() {
    assert!(matches!(sys_exit(-3), KernelAction::ExitCurrent(-3)));
}

#[test]
fn yield_suspends_and_returns_zero() {
    let r = lib::syscall_process::sys_yield();
    assert_eq!(r.ret, 0);
    assert!(matches!(r.action, KernelAction::SuspendCurrent));
}

#[test]
fn getpid_returns_pid() {
    assert_eq!(sys_getpid(&process_with(Vec::new())), 7);
}

#[test]
fn fork_zeroes_child_a0_only() {
    let mut x = [0usize; 32];
    for i in 0..32 {
        x[i] = i + 100;
    }
    let mut cx = TrapContext { x };
    let mut p = process_with(vec![child(3, true, 1)]);
    let r = sys_fork(&mut p, 12, &mut cx);
    assert_eq!(r.ret, 12);
    assert_eq!(p.children, vec![child(3, true, 1), child(12, false, 0)]);
    assert_eq!(sys_waitpid(&mut p, 12).ret, -2);
    assert!(matches!(r.action, KernelAction::AddTask(12)));
    assert_eq!(cx.x[10], 0);
    assert_eq!(cx.x[9], 109);
    assert_eq!(cx.x[11], 111);
}

#[test]
fn exec_finds_first_app_with_name() {
    let r = sys_exec(&apps(), &b"hello".to_vec());
    assert_eq!(r.ret, 0);
    assert!(matches!(r.action, KernelAction::Exec(0)));
    let r = sys_exec(&apps(), &b"user_shell".to_vec());
    assert!(matches!(r.action, KernelAction::Exec(1)));
}

#[test]
fn exec_of_unknown_app_fails() {
    let r = sys_exec(&apps(), &b"hell".to_vec());
    assert_eq!(r.ret, -1);
    assert!(matches!(r.action, KernelAction::Nothing));
}

#[test]
fn waitpid_without_such_child_returns_minus_one() {
    let mut p = process_with(vec![child(3, true, 5)]);
    let r = sys_waitpid(&mut p, 4);
    assert_eq!(r.ret, -1);
    assert_eq!(p.children.len(), 1);
    let mut q = process_with(Vec::new());
    assert_eq!(sys_waitpid(&mut q, -1).ret, -1);
}

#[test]
fn waitpid_on_running_child_returns_minus_two() {
    let mut p = process_with(vec![child(3, false, 0), child(4, true, 1)]);
    let r = sys_waitpid(&mut p, 3);
    assert_eq!(r.ret, -2);
    assert!(matches!(r.action, KernelAction::Nothing));
    assert_eq!(p.children, vec![child(3, false, 0), child(4, true, 1)]);
}

#[test]
fn waitpid_reaps_exited_child() {
    let mut p = process_with(vec![child(3, false, 0), child(4, true, 42), child(5, true, 9)]);
    let r = sys_waitpid(&mut p, 4);
    assert_eq!(r.ret, 4);
    assert!(matches!(r.action, KernelAction::WriteExitCode(42)));
    assert_eq!(p.children, vec![child(3, false, 0), child(5, true, 9)]);
}

#[test]
fn waitpid_any_reaps_first_exited_child() {
    let mut p = process_with(vec![child(3, false, 0), child(5, true, 9), child(4, true, 42)]);
    let r = sys_waitpid(&mut p, -1);
    assert_eq!(r.ret, 5);
    assert!(matches!(r.action, KernelAction::WriteExitCode(9)));
    assert_eq!(p.children, vec![child(3, false, 0), child(4, true, 42)]);
    let mut q = process_with(vec![child(3, false, 0)]);
    assert_eq!(sys_waitpid(&mut q, -1).ret, -2);
}

#[test]
fn time_splits_microseconds() {
    assert_eq!(time_val_from_us(3_500_001), TimeVal { sec: 3, usec: 500_001 });
    assert_eq!(time_val_from_us(999_999), TimeVal { sec: 0, usec: 999_999 });
}

#[test]
fn get_time_writes_through_page_table() {
    let pt = PageTable { entries: vec![(0x10, PageTableEntry { ppn: 0x8020, valid: true })] };
    let r = sys_get_time(&pt, 0x10_018, 2_000_003);
    assert_eq!(r.ret, 0);
    match r.action {
        KernelAction::WriteTimeVal { sec_pa, usec_pa, sec, usec } => {
            assert_eq!(sec_pa, 0x8020 * 4096 + 0x18);
            assert_eq!(usec_pa, 0x8020 * 4096 + 0x20);
            assert_eq!(sec, 2);
            assert_eq!(usec, 3);
        }
        _ => panic!("expected a time write"),
    }
    let r = sys_get_time(&pt, 0x11_000, 5);
    assert_eq!(r.ret, -1);
    assert!(matches!(r.action, KernelAction::Nothing));
}

#[test]
fn get_time_splits_across_pages() {
    let pt = PageTable {
        entries: vec![
            (0x10, PageTableEntry { ppn: 0x8020, valid: true }),
            (0x11, PageTableEntry { ppn: 0x9000, valid: true }),
        ],
    };
    let r = sys_get_time(&pt, 0x10_ff8, 7_250_000);
    assert_eq!(r.ret, 0);
    match r.action {
        KernelAction::WriteTimeVal { sec_pa, usec_pa, sec, usec } => {
            assert_eq!(sec_pa, 0x8020 * 4096 + 0xff8);
            assert_eq!(usec_pa, 0x9000 * 4096);
            assert_eq!(sec, 7);
            assert_eq!(usec, 250_000);
        }
        _ => panic!("expected a time write"),
    }
    let half = PageTable { entries: vec![(0x10, PageTableEntry { ppn: 0x8020, valid: true })] };
    assert_eq!(sys_get_time(&half, 0x10_ff8, 1).ret, -1);
    assert_eq!(sys_get_time(&half, usize::MAX - 3, 1).ret, -1);
}

fn memory_set() -> MemorySet {
    MemorySet {
        page_table: PageTable {
            entries: vec![
                (0x10, PageTableEntry { ppn: 0x100, valid: true }),
                (0x20, PageTableEntry { ppn: 0x101, valid: false }),
            ],
        },
        areas: vec![
            VpnRange { start: 0x10, end: 0x11 },
            VpnRange { start: 0x30, end: 0x32 },
            VpnRange { start: 0x30, end: 0x32 },
        ],
    }
}

#[test]
fn mmap_refuses_misaligned_start() {
    let r = sys_mmap(&memory_set(), 0x30_001, 4096, 3);
    assert_eq!(r.ret, -1);
}

#[test]
fn mmap_refuses_bad_input_with_huge_length() {
    assert_eq!(sys_mmap(&memory_set(), 1, usize::MAX, 3).ret, -1);
    assert_eq!(sys_mmap(&memory_set(), 0x30_000, usize::MAX, 0).ret, -1);
    assert_eq!(sys_munmap(&memory_set(), 1, usize::MAX).ret, -1);
}

#[test]
fn mmap_refuses_bad_port() {
    assert_eq!(sys_mmap(&memory_set(), 0x30_000, 4096, 0).ret, -1);
    assert_eq!(sys_mmap(&memory_set(), 0x30_000, 4096, 8).ret, -1);
    assert_eq!(sys_mmap(&memory_set(), 0x30_000, 4096, 9).ret, -1);
}

#[test]
fn mmap_refuses_mapped_page() {
    assert_eq!(sys_mmap(&memory_set(), 0xf_000, 0x1001, 1).ret, -1);
}

#[test]
fn mmap_ignores_invalid_entry() {
    let r = sys_mmap(&memory_set(), 0x20_000, 10, 7);
    assert_eq!(r.ret, 0);
}

#[test]
fn mmap_asks_for_framed_area() {
    let r = sys_mmap(&memory_set(), 0x30_000, 0x1800, 3);
    assert_eq!(r.ret, 0);
    match r.action {
        KernelAction::InsertFramedArea { start_va, end_va, permission } => {
            assert_eq!(start_va, 0x30_000);
            assert_eq!(end_va, 0x31_800);
            assert_eq!(permission, 0b10110);
        }
        _ => panic!("expected a framed area"),
    }
}

#[test]
fn munmap_refuses_misaligned_start() {
    assert_eq!(sys_munmap(&memory_set(), 0x30_010, 4096).ret, -1);
}

#[test]
fn munmap_refuses_range_with_invalid_entry() {
    assert_eq!(sys_munmap(&memory_set(), 0x1f_000, 0x2000).ret, -1);
}

#[test]
fn munmap_unmaps_exactly_matching_areas() {
    let r = sys_munmap(&memory_set(), 0x30_000, 0x2000);
    assert_eq!(r.ret, 0);
    match r.action {
        KernelAction::UnmapAreas(v) => assert_eq!(v, vec![1, 2]),
        _ => panic!("expected areas to unmap"),
    }
    let r = sys_munmap(&memory_set(), 0x30_000, 0x1000);
    assert_eq!(r.ret, 0);
    match r.action {
        KernelAction::UnmapAreas(v) => assert!(v.is_empty()),
        _ => panic!("expected areas to unmap"),
    }
}

#[test]
fn sbrk_returns_old_break_or_minus_one() {
    assert_eq!(sys_sbrk(Some(0x5000)), 0x5000);
    assert_eq!(sys_sbrk(None), -1);
}

#[test]
fn spawn_creates_child_from_app() {
    let mut p = process_with(vec![child(3, false, 0)]);
    let r = sys_spawn(&mut p, &apps(), &b"user_shell".to_vec(), 9);
    assert_eq!(r.ret, 9);
    assert!(matches!(r.action, KernelAction::Spawn { pid: 9, app: 1 }));
    assert_eq!(p.children, vec![child(3, false, 0), child(9, false, 0)]);
}

#[test]
fn spawn_of_unknown_app_creates_nothing() {
    let mut p = process_with(vec![child(3, false, 0)]);
    let r = sys_spawn(&mut p, &apps(), &b"nope".to_vec(), 9);
    assert_eq!(r.ret, -1);
    assert!(matches!(r.action, KernelAction::Nothing));
    assert_eq!(p.children, vec![child(3, false, 0)]);
}

#[test]
fn priority_must_be_at_least_two() {
    let mut prio: isize = 16;
    assert_eq!(sys_set_priority(&mut prio, 2), 2);
    assert_eq!(prio, 2);
    assert_eq!(sys_set_priority(&mut prio, 30), 30);
    assert_eq!(prio, 30);
    assert_eq!(sys_set_priority(&mut prio, 1), -1);
    assert_eq!(sys_set_priority(&mut prio, -5), -1);
    assert_eq!(prio, 30);
}
