//! Process management system calls.
use vstd::prelude::*;
use crate::mm::{
    ceil_spec, floor_spec, get_page_from_vir, phys_addr_spec, translate_spec, va_ceil, va_floor, va_from,
    va_from_spec, PageTable, PAGE_SIZE,
};
use crate::process::{ChildProcess, KernelAction, Process, SyscallReply};

verus! {

/// A time split into seconds and microseconds.
#[derive(Debug, Clone, Copy, PartialEq, Eq, Structural)]
pub struct TimeVal {
    pub sec: usize,
    pub usec: usize,
}

/// The registers a task resumes with.
pub struct TrapContext {
    /// General-purpose registers; `x[10]` (`a0`) carries a system call's
    /// return value.
    pub x: [usize; 32],
}

/// The apps the loader can start, by name.
pub struct AppTable {
    pub names: Vec<Vec<u8>>,
}

/// Index of the first app called `name`, if any.
pub open spec fn app_index_spec(names: Seq<Vec<u8>>, name: Seq<u8>) -> Option<int> {
    if exists|k: int| is_first_app(names, name, k) {
        Some(choose|k: int| is_first_app(names, name, k))
    } else {
        None
    }
}

/// `k` is the first app called `name`.
pub open spec fn is_first_app(names: Seq<Vec<u8>>, name: Seq<u8>, k: int) -> bool {
    &&& 0 <= k < names.len()
    &&& names[k]@ == name
    &&& forall|j: int| 0 <= j < k ==> names[j]@ != name
}

fn bytes_equal(a: &Vec<u8>, b: &Vec<u8>) -> (r: bool)
    ensures
        r == (a@ == b@),
{
    if a.len() != b.len() {
        return false;
    }
    for i in 0..a.len()
        invariant
            a@.len() == b@.len(),
            forall|j: int| 0 <= j < i ==> a@[j] == b@[j],
    {
        if a[i] != b[i] {
            return false;
        }
    }
    assert(a@ =~= b@);
    true
}

impl AppTable {
    /// Looks up the app called `name`.
    pub fn find_app(&self, name: &Vec<u8>) -> (r: Option<usize>)
        ensures
            match r {
                Some(k) => app_index_spec(self.names@, name@) == Some(k as int),
                None => app_index_spec(self.names@, name@) == None::<int>,
            },
    {
        let mut k: usize = 0;
        while k < self.names.len()
            invariant
                k <= self.names@.len(),
                forall|j: int| 0 <= j < k ==> self.names@[j]@ != name@,
            decreases self.names@.len() - k,
        {
            if bytes_equal(&self.names[k], name) {
                proof {
                    let c = choose|c: int| is_first_app(self.names@, name@, c);
                    assert(is_first_app(self.names@, name@, k as int));
                    if c < k {
                        assert(self.names@[c]@ != name@);
                    }
                    if k < c {
                        assert(self.names@[k as int]@ != name@);
                    }
                }
                return Some(k);
            }
            k = k + 1;
        }
        None
    }
}

/// Ends the current task with `exit_code`; the kernel runs the next task and
/// never returns to the caller.
pub fn sys_exit(exit_code: i32) -> (a: KernelAction)
    ensures
        a == KernelAction::ExitCurrent(exit_code),
{
    KernelAction::ExitCurrent(exit_code)
}

/// Gives the processor up to the next task; returns 0.
pub fn sys_yield() -> (r: SyscallReply)
    ensures
        r.ret == 0,
        r.action == KernelAction::SuspendCurrent,
{
    SyscallReply { ret: 0, action: KernelAction::SuspendCurrent }
}

/// The pid of the calling process.
pub fn sys_getpid(process: &Process) -> (r: isize)
    ensures
        r == process.pid as isize,
{
    process.pid as isize
}

/// The child record of a task that has just been created.
pub open spec fn new_child(pid: usize) -> ChildProcess {
    ChildProcess { pid, is_zombie: false, exit_code: 0 }
}

/// Completes a fork once the kernel has copied the caller's address space
/// into a new task with pid `child_pid` (the pid its allocator handed out)
/// and the caller's registers into `child_cx`. The child is recorded among
/// the caller's children, it sees 0 as the call's result, it is scheduled,
/// and the parent gets the child's pid.
pub fn sys_fork(process: &mut Process, child_pid: usize, child_cx: &mut TrapContext) -> (r:
    SyscallReply)
    ensures
        final(child_cx).x@ == old(child_cx).x@.update(10, 0usize),
        final(process).children@ == old(process).children@.push(new_child(child_pid)),
        r.ret == child_pid as isize,
        r.action == KernelAction::AddTask(child_pid),
        final(process).pid == old(process).pid,
        final(process).mutex_list@ == old(process).mutex_list@,
        final(process).semaphore_list@ == old(process).semaphore_list@,
        final(process).condvar_list@ == old(process).condvar_list@,
        final(process).tasks@ == old(process).tasks@,
        final(process).deadlock_detection == old(process).deadlock_detection,
{
    process.children.push(ChildProcess { pid: child_pid, is_zombie: false, exit_code: 0 });
    child_cx.x[10] = 0;
    SyscallReply { ret: child_pid as isize, action: KernelAction::AddTask(child_pid) }
}

/// Replaces the caller's program by the app called `path`; returns 0, or -1
/// when there is no such app.
pub fn sys_exec(apps: &AppTable, path: &Vec<u8>) -> (r: SyscallReply)
    ensures
        match app_index_spec(apps.names@, path@) {
            Some(k) => r.ret == 0 && r.action == KernelAction::Exec(k as usize),
            None => r.ret == -1 && r.action == KernelAction::Nothing,
        },
        r.action matches KernelAction::Exec(k) ==> k < apps.names@.len() && apps.names@[k as int]@ == path@,
        r.ret == -1 <==> forall|k: int| 0 <= k < apps.names@.len() ==> apps.names@[k]@ != path@,
{
    proof {
        lemma_app_lookup_exact(apps.names@, path@);
    }
    match apps.find_app(path) {
        Some(k) => SyscallReply { ret: 0, action: KernelAction::Exec(k) },
        None => SyscallReply { ret: -1, action: KernelAction::Nothing },
    }
}

/// Child `c` is one that `waitpid(pid)` waits for: any child when `pid` is
/// -1, else the child with that pid.
pub open spec fn pid_matches(pid: isize, c: ChildProcess) -> bool {
    pid == -1 || pid as usize == c.pid
}

/// `k` is the first exited child that `waitpid(pid)` waits for.
pub open spec fn is_first_reapable(children: Seq<ChildProcess>, pid: isize, k: int) -> bool {
    &&& 0 <= k < children.len()
    &&& children[k].is_zombie
    &&& pid_matches(pid, children[k])
    &&& forall|j: int| 0 <= j < k ==> !(children[j].is_zombie && pid_matches(pid, children[j]))
}

/// The first exited child that `waitpid(pid)` waits for, if any.
pub open spec fn first_reapable(children: Seq<ChildProcess>, pid: isize) -> Option<int> {
    if exists|k: int| is_first_reapable(children, pid, k) {
        Some(choose|k: int| is_first_reapable(children, pid, k))
    } else {
        None
    }
}

/// Some child is one that `waitpid(pid)` waits for.
pub open spec fn has_matching_child(children: Seq<ChildProcess>, pid: isize) -> bool {
    exists|k: int| 0 <= k < children.len() && pid_matches(pid, #[trigger] children[k])
}

/// Waits for a child: any child when `pid` is -1, else the child with that
/// pid. Returns -1 when there is no such child, -2 when there is but it has
/// not exited yet; otherwise the first exited one is removed from the
/// children, its exit code is to be stored at the caller's pointer, and its
/// pid is returned.
pub fn sys_waitpid(process: &mut Process, pid: isize) -> (r: SyscallReply)
    ensures
        !has_matching_child(old(process).children@, pid) ==> r.ret == -1 && r.action
            == KernelAction::Nothing && final(process).children@ == old(process).children@,
        has_matching_child(old(process).children@, pid) && first_reapable(old(process).children@, pid)
            is None ==> r.ret == -2 && r.action == KernelAction::Nothing && final(process).children@
            == old(process).children@,
        first_reapable(old(process).children@, pid) matches Some(k) ==> {
            let c = old(process).children@[k];
            &&& r.ret == c.pid as isize
            &&& r.action == KernelAction::WriteExitCode(c.exit_code)
            &&& final(process).children@ == old(process).children@.remove(k)
        },
        final(process).pid == old(process).pid,
        final(process).mutex_list@ == old(process).mutex_list@,
        final(process).semaphore_list@ == old(process).semaphore_list@,
        final(process).condvar_list@ == old(process).condvar_list@,
        final(process).tasks@ == old(process).tasks@,
        final(process).deadlock_detection == old(process).deadlock_detection,
{
    let (any, found) = find_child(&process.children, pid);
    if !any {
        return SyscallReply { ret: -1, action: KernelAction::Nothing };
    }
    match found {
        Some(k) => {
            let child = process.children.remove(k);
            SyscallReply { ret: child.pid as isize, action: KernelAction::WriteExitCode(child.exit_code) }
        },
        None => SyscallReply { ret: -2, action: KernelAction::Nothing },
    }
}

/// Whether some child matches `pid`, and the first exited one that does.
fn find_child(children: &Vec<ChildProcess>, pid: isize) -> (r: (bool, Option<usize>))
    ensures
        r.0 == has_matching_child(children@, pid),
        match r.1 {
            Some(k) => first_reapable(children@, pid) == Some(k as int),
            None => first_reapable(children@, pid) == None::<int>,
        },
{
    let ghost cs = children@;
    let mut any = false;
    let mut k: usize = 0;
    while k < children.len()
        invariant
            k <= cs.len(),
            children@ == cs,
            any == exists|j: int| 0 <= j < k && pid_matches(pid, #[trigger] cs[j]),
        decreases cs.len() - k,
    {
        let c = children[k];
        if pid == -1 || pid as usize == c.pid {
            any = true;
        }
        k = k + 1;
    }
    let mut k: usize = 0;
    while k < children.len()
        invariant
            k <= cs.len(),
            children@ == cs,
            any == has_matching_child(cs, pid),
            forall|j: int| 0 <= j < k ==> !(cs[j].is_zombie && pid_matches(pid, cs[j])),
        decreases cs.len() - k,
    {
        let c = children[k];
        if c.is_zombie && (pid == -1 || pid as usize == c.pid) {
            proof {
                assert(is_first_reapable(cs, pid, k as int));
                let f = choose|f: int| is_first_reapable(cs, pid, f);
                if f < k {
                    assert(!(cs[f].is_zombie && pid_matches(pid, cs[f])));
                }
                if k < f {
                    assert(!(cs[k as int].is_zombie && pid_matches(pid, cs[k as int])));
                }
            }
            return (any, Some(k));
        }
        k = k + 1;
    }
    (any, None)
}

/// The time `time_us` (in microseconds) as seconds and microseconds.
pub open spec fn time_val_spec(time_us: usize) -> TimeVal {
    TimeVal { sec: (time_us / 1_000_000) as usize, usec: (time_us % 1_000_000) as usize }
}

/// Splits a time in microseconds into seconds and microseconds.
pub fn time_val_from_us(time_us: usize) -> (tv: TimeVal)
    ensures
        tv == time_val_spec(time_us),
{
    TimeVal { sec: time_us / 1_000_000, usec: time_us % 1_000_000 }
}

/// Offset of the `usec` field within a `TimeVal` (two 64-bit fields).
pub const TIMEVAL_USEC_OFFSET: usize = 8;

/// Stores the time `time_us` (in microseconds) at the caller's address
/// `ts`. Each field of the `TimeVal` is translated through the caller's page
/// table on its own, so a `TimeVal` that straddles two pages is stored
/// correctly: `sec` at the physical address of `ts`, `usec` at that of
/// `ts + 8`. Returns 0, or -1 when either address does not translate (or
/// `ts + 8` lies past the end of the address space).
pub fn sys_get_time(page_table: &PageTable, ts: usize, time_us: usize) -> (r: SyscallReply)
    requires
        page_table.wf(),
    ensures
        match (phys_addr_spec(page_table.entries@, ts), if ts + TIMEVAL_USEC_OFFSET <= usize::MAX {
            phys_addr_spec(page_table.entries@, (ts + TIMEVAL_USEC_OFFSET) as usize)
        } else {
            None
        }) {
            (Some(sec_pa), Some(usec_pa)) => r.ret == 0 && r.action == (KernelAction::WriteTimeVal {
                sec_pa,
                usec_pa,
                sec: time_val_spec(time_us).sec,
                usec: time_val_spec(time_us).usec,
            }),
            _ => r.ret == -1 && r.action == KernelAction::Nothing,
        },
{
    let sec_pa = get_page_from_vir(page_table, ts);
    let usec_va = ts.checked_add(TIMEVAL_USEC_OFFSET);
    let usec_pa = match usec_va {
        Some(va) => get_page_from_vir(page_table, va),
        None => None,
    };
    match (sec_pa, usec_pa) {
        (Some(sec_pa), Some(usec_pa)) => {
            let tv = time_val_from_us(time_us);
            SyscallReply {
                ret: 0,
                action: KernelAction::WriteTimeVal { sec_pa, usec_pa, sec: tv.sec, usec: tv.usec },
            }
        },
        _ => SyscallReply { ret: -1, action: KernelAction::Nothing },
    }
}

/// A range of virtual pages `[start, end)` covered by one map area.
#[derive(Debug, Clone, Copy, PartialEq, Eq, Structural)]
pub struct VpnRange {
    pub start: usize,
    pub end: usize,
}

/// The address space of a process: its page table and its map areas.
pub struct MemorySet {
    pub page_table: PageTable,
    pub areas: Vec<VpnRange>,
}

/// Some page in `[lo, hi)` has a valid leaf entry.
pub open spec fn some_page_valid(pt: Seq<(usize, crate::mm::PageTableEntry)>, lo: usize, hi: usize) -> bool {
    exists|v: usize|
        lo <= v < hi && (#[trigger] translate_spec(pt, v) matches Some(pte) && pte.valid)
}

/// Some page in `[lo, hi)` has a leaf entry that is not valid.
pub open spec fn some_page_invalid(pt: Seq<(usize, crate::mm::PageTableEntry)>, lo: usize, hi: usize) -> bool {
    exists|v: usize|
        lo <= v < hi && (#[trigger] translate_spec(pt, v) matches Some(pte) && !pte.valid)
}

/// `port` selects a non-empty subset of read, write and execute.
pub open spec fn port_ok(port: usize) -> bool {
    1 <= port <= 7
}

/// Whether some page in `[lo, hi)` has a leaf entry whose valid bit is
/// `valid`.
fn scan_pages(pt: &PageTable, lo: usize, hi: usize, valid: bool) -> (found: bool)
    ensures
        found == exists|v: usize|
            lo <= v < hi && (#[trigger] translate_spec(pt.entries@, v) matches Some(pte) && pte.valid
                == valid),
{
    let mut v = lo;
    while v < hi
        invariant
            lo <= v,
            forall|u: usize|
                lo <= u < v ==> !(#[trigger] translate_spec(pt.entries@, u) matches Some(pte)
                    && pte.valid == valid),
        decreases hi - v,
    {
        let t = pt.translate(v);
        if let Some(pte) = t {
            if pte.valid == valid {
                assert(lo <= v < hi);
                assert(translate_spec(pt.entries@, v) matches Some(p) && p.valid == valid);
                return true;
            }
        }
        v = v + 1;
    }
    false
}

/// Maps `[start, start + len)` with the access rights `port` (bit 0 read,
/// bit 1 write, bit 2 execute) for user mode. Returns -1 when `start` is not
/// page aligned, when `port` names no right or an unknown one, or when a
/// page of the range is already mapped; otherwise the kernel inserts a
/// framed area over the range and 0 is returned.
pub fn sys_mmap(memory_set: &MemorySet, start: usize, len: usize, port: usize) -> (r: SyscallReply)
    requires
        start % PAGE_SIZE == 0 && port_ok(port) ==> (start + len == 0 || start + len - 1 + PAGE_SIZE
            <= usize::MAX),
    ensures
        start % PAGE_SIZE != 0 || !port_ok(port) || some_page_valid(
            memory_set.page_table.entries@,
            floor_spec(start),
            ceil_spec((start + len) as usize),
        ) ==> r.ret == -1 && r.action == KernelAction::Nothing,
        !(start % PAGE_SIZE != 0 || !port_ok(port) || some_page_valid(
            memory_set.page_table.entries@,
            floor_spec(start),
            ceil_spec((start + len) as usize),
        )) ==> r.ret == 0 && r.action == (KernelAction::InsertFramedArea {
            start_va: va_from_spec(start),
            end_va: va_from_spec((start + len) as usize),
            permission: (2 * port + 16) as u8,
        }),
        forall|v: usize|
            floor_spec(start) <= v < ceil_spec((start + len) as usize) && (#[trigger] translate_spec(
                memory_set.page_table.entries@,
                v,
            ) matches Some(pte) && pte.valid) ==> r.ret == -1,
        start % PAGE_SIZE == 0 && 1 <= port <= 7 && (forall|v: usize|
            floor_spec(start) <= v < ceil_spec((start + len) as usize) ==> !(#[trigger] translate_spec(
                memory_set.page_table.entries@,
                v,
            ) matches Some(pte) && pte.valid)) ==> r.ret == 0,
{
    proof {
        lemma_page_scan_covers_range(memory_set.page_table.entries@, floor_spec(start), ceil_spec((start + len) as usize));
        lemma_port_ok_is_port_check(port);
    }
    if start & (PAGE_SIZE - 1) != 0 {
        assert(start & 4095 == start % 4096) by (bit_vector);
        return SyscallReply { ret: -1, action: KernelAction::Nothing };
    } else if port & !0x7 != 0 || port & 0x7 == 0 {
        assert(start & 4095 == start % 4096) by (bit_vector);
        assert((port & !7usize != 0 || port & 7usize == 0) <==> !(1 <= port <= 7)) by (bit_vector);
        return SyscallReply { ret: -1, action: KernelAction::Nothing };
    }
    assert(start & 4095 == start % 4096) by (bit_vector);
    assert((port & !7usize != 0 || port & 7usize == 0) <==> !(1 <= port <= 7)) by (bit_vector);
    let p: u8 = port as u8;
    let permission: u8 = (p << 1u8) | 16u8;
    assert(p < 8 ==> (p << 1u8) | 16u8 == 2 * p + 16) by (bit_vector);
    let start_vpn = va_floor(start);
    let end_vpn = va_ceil(start + len);
    if scan_pages(&memory_set.page_table, start_vpn, end_vpn, true) {
        return SyscallReply { ret: -1, action: KernelAction::Nothing };
    }
    SyscallReply {
        ret: 0,
        action: KernelAction::InsertFramedArea {
            start_va: va_from(start),
            end_va: va_from(start + len),
            permission,
        },
    }
}

/// The positions of the areas that cover exactly the pages `[lo, hi)`.
pub open spec fn matching_areas(areas: Seq<VpnRange>, lo: usize, hi: usize) -> Seq<usize> {
    Seq::new(areas.len(), |i: int| i as usize).filter(|i: usize| areas[i as int].start == lo && areas[i as int].end == hi)
}

/// Unmaps `[start, start + len)`. Returns -1 when `start` is not page
/// aligned or when a page of the range has a leaf entry that is not valid;
/// otherwise the kernel unmaps every area that covers exactly the pages of
/// the range, and 0 is returned.
pub fn sys_munmap(memory_set: &MemorySet, start: usize, len: usize) -> (r: SyscallReply)
    requires
        start % PAGE_SIZE == 0 ==> (start + len == 0 || start + len - 1 + PAGE_SIZE <= usize::MAX),
    ensures
        start % PAGE_SIZE != 0 || some_page_invalid(
            memory_set.page_table.entries@,
            floor_spec(start),
            ceil_spec((start + len) as usize),
        ) ==> r.ret == -1 && r.action == KernelAction::Nothing,
        !(start % PAGE_SIZE != 0 || some_page_invalid(
            memory_set.page_table.entries@,
            floor_spec(start),
            ceil_spec((start + len) as usize),
        )) ==> r.ret == 0 && (r.action matches KernelAction::UnmapAreas(v) && v@ == matching_areas(
            memory_set.areas@,
            floor_spec(va_from_spec(start)),
            ceil_spec(va_from_spec((start + len) as usize)),
        )),
        r.action matches KernelAction::UnmapAreas(v) ==> {
            &&& forall|k: int|
                0 <= k < v@.len() ==> #[trigger] v@[k] < memory_set.areas@.len()
                    && memory_set.areas@[v@[k] as int].start == floor_spec(va_from_spec(start))
                    && memory_set.areas@[v@[k] as int].end == ceil_spec(va_from_spec((start + len) as usize))
            &&& forall|i: int|
                0 <= i < memory_set.areas@.len() && (#[trigger] memory_set.areas@[i]).start == floor_spec(
                    va_from_spec(start),
                ) && memory_set.areas@[i].end == ceil_spec(va_from_spec((start + len) as usize))
                    ==> v@.contains(i as usize)
        },
        forall|v: usize|
            floor_spec(start) <= v < ceil_spec((start + len) as usize) && (#[trigger] translate_spec(
                memory_set.page_table.entries@,
                v,
            ) matches Some(pte) && !pte.valid) ==> r.ret == -1,
{
    proof {
        lemma_page_scan_covers_range(memory_set.page_table.entries@, floor_spec(start), ceil_spec((start + len) as usize));
        lemma_matching_areas(
            memory_set.areas@,
            floor_spec(va_from_spec(start)),
            ceil_spec(va_from_spec((start + len) as usize)),
        );
    }
    if start & (PAGE_SIZE - 1) != 0 {
        assert(start & 4095 == start % 4096) by (bit_vector);
        return SyscallReply { ret: -1, action: KernelAction::Nothing };
    }
    assert(start & 4095 == start % 4096) by (bit_vector);
    let start_vpn = va_floor(start);
    let end_vpn = va_ceil(start + len);
    if scan_pages(&memory_set.page_table, start_vpn, end_vpn, false) {
        return SyscallReply { ret: -1, action: KernelAction::Nothing };
    }
    let lo = va_floor(va_from(start));
    let end_va = va_from(start + len);
    let hi = va_ceil(end_va);
    let mut found: Vec<usize> = Vec::new();
    let ghost all = Seq::new(memory_set.areas@.len(), |i: int| i as usize);
    let ghost pred = |i: usize| memory_set.areas@[i as int].start == lo && memory_set.areas@[i as int].end == hi;
    for i in 0..memory_set.areas.len()
        invariant
            all == Seq::new(memory_set.areas@.len(), |i: int| i as usize),
            pred == (|i: usize| memory_set.areas@[i as int].start == lo && memory_set.areas@[i as int].end == hi),
            found@ == all.take(i as int).filter(pred),
    {
        let a = memory_set.areas[i];
        proof {
            all.take(i as int).lemma_filter_push(all[i as int], pred);
            assert(all.take(i + 1) =~= all.take(i as int).push(all[i as int]));
        }
        if a.start == lo && a.end == hi {
            found.push(i);
        }
    }
    assert(all.take(memory_set.areas@.len() as int) =~= all);
    SyscallReply { ret: 0, action: KernelAction::UnmapAreas(found) }
}

/// Returns the old program break, or -1, given what the kernel's change of
/// the break by the requested size gave back.
pub fn sys_sbrk(old_brk: Option<usize>) -> (r: isize)
    ensures
        r == match old_brk {
            Some(b) => b as isize,
            None => -1isize,
        },
{
    if let Some(b) = old_brk {
        b as isize
    } else {
        -1
    }
}

/// Spawns the app called `path` as a new child task, without forking the
/// caller. The app is looked up first: when it does not exist, -1 is
/// returned and nothing is created. Otherwise the new task gets `new_pid`
/// (the pid the kernel's allocator hands out next), is recorded among the
/// caller's children, and the kernel builds it from the app's image and
/// schedules it; its pid is returned.
pub fn sys_spawn(process: &mut Process, apps: &AppTable, path: &Vec<u8>, new_pid: usize) -> (r:
    SyscallReply)
    ensures
        match app_index_spec(apps.names@, path@) {
            Some(k) => {
                &&& r.ret == new_pid as isize
                &&& r.action == (KernelAction::Spawn { pid: new_pid, app: k as usize })
                &&& final(process).children@ == old(process).children@.push(new_child(new_pid))
            },
            None => {
                &&& r.ret == -1
                &&& r.action == KernelAction::Nothing
                &&& final(process).children@ == old(process).children@
            },
        },
        final(process).pid == old(process).pid,
        final(process).mutex_list@ == old(process).mutex_list@,
        final(process).semaphore_list@ == old(process).semaphore_list@,
        final(process).condvar_list@ == old(process).condvar_list@,
        final(process).tasks@ == old(process).tasks@,
        final(process).deadlock_detection == old(process).deadlock_detection,
        r.action matches KernelAction::Spawn { pid, app } ==> app < apps.names@.len() && apps.names@[app as int]@
            == path@,
        r.action == KernelAction::Nothing <==> forall|k: int| 0 <= k < apps.names@.len() ==> apps.names@[k]@
            != path@,
{
    proof {
        lemma_app_lookup_exact(apps.names@, path@);
    }
    match apps.find_app(path) {
        Some(k) => {
            process.children.push(ChildProcess { pid: new_pid, is_zombie: false, exit_code: 0 });
            SyscallReply { ret: new_pid as isize, action: KernelAction::Spawn { pid: new_pid, app: k } }
        },
        None => SyscallReply { ret: -1, action: KernelAction::Nothing },
    }
}

/// Sets the calling task's priority, held in `current_priority`: a
/// priority of at least 2 is stored and returned; a smaller one is refused
/// with -1 and the priority stays as it was.
pub fn sys_set_priority(current_priority: &mut isize, prio: isize) -> (r: isize)
    ensures
        prio >= 2 ==> r == prio && *final(current_priority) == prio,
        prio < 2 ==> r == -1 && *final(current_priority) == *old(current_priority),
{
    if prio >= 2 {
        *current_priority = prio;
        prio
    } else {
        -1
    }
}

/// Looking an app up by name finds an app with exactly that name, the first
/// such; it finds none exactly when no app has that name.
pub proof fn lemma_app_lookup_exact(names: Seq<Vec<u8>>, name: Seq<u8>)
    ensures
        app_index_spec(names, name) matches Some(k) ==> {
            &&& 0 <= k < names.len()
            &&& names[k]@ == name
            &&& forall|j: int| 0 <= j < k ==> names[j]@ != name
        },
        app_index_spec(names, name) is None <==> forall|k: int| 0 <= k < names.len() ==> names[k]@ != name,
{
    if app_index_spec(names, name) is None {
        assert forall|k: int| 0 <= k < names.len() implies names[k]@ != name by {
            if names[k]@ == name {
                lemma_first_app_exists(names, name, k);
            }
        }
    } else {
        let k = app_index_spec(names, name).unwrap();
        assert(is_first_app(names, name, k));
    }
}

proof fn lemma_first_app_exists(names: Seq<Vec<u8>>, name: Seq<u8>, a: int)
    requires
        0 <= a < names.len(),
        names[a]@ == name,
    ensures
        app_index_spec(names, name) is Some,
    decreases a,
{
    if exists|j: int| 0 <= j < a && names[j]@ == name {
        let j = choose|j: int| 0 <= j < a && names[j]@ == name;
        lemma_first_app_exists(names, name, j);
    } else {
        assert(is_first_app(names, name, a));
    }
}

/// The page scans look at every page of the range: a page with a valid
/// (or an invalid) leaf entry anywhere in `[lo, hi)` is found, and only
/// pages of the range are.
pub proof fn lemma_page_scan_covers_range(pt: Seq<(usize, crate::mm::PageTableEntry)>, lo: usize, hi: usize)
    ensures
        forall|v: usize|
            lo <= v < hi && (#[trigger] translate_spec(pt, v) matches Some(pte) && pte.valid) ==> some_page_valid(
                pt,
                lo,
                hi,
            ),
        some_page_valid(pt, lo, hi) ==> exists|v: usize|
            lo <= v < hi && (#[trigger] translate_spec(pt, v) matches Some(pte) && pte.valid),
        forall|v: usize|
            lo <= v < hi && (#[trigger] translate_spec(pt, v) matches Some(pte) && !pte.valid) ==> some_page_invalid(
                pt,
                lo,
                hi,
            ),
        some_page_invalid(pt, lo, hi) ==> exists|v: usize|
            lo <= v < hi && (#[trigger] translate_spec(pt, v) matches Some(pte) && !pte.valid),
{
}

/// The ports `mmap` accepts are exactly those the original's test lets
/// through: no bit above the three access bits, and at least one of them.
pub proof fn lemma_port_ok_is_port_check(port: usize)
    ensures
        port_ok(port) <==> (port & !7usize == 0 && port & 7usize != 0),
{
    assert((port & !7usize == 0 && port & 7usize != 0) <==> (1 <= port <= 7)) by (bit_vector);
}

/// The areas `munmap` unmaps are exactly those that cover the pages
/// `[lo, hi)`: every listed position names such an area, every such area is
/// listed, each once, in table order.
pub proof fn lemma_matching_areas(areas: Seq<VpnRange>, lo: usize, hi: usize)
    requires
        areas.len() <= usize::MAX,
    ensures
        forall|k: int|
            0 <= k < matching_areas(areas, lo, hi).len() ==> #[trigger] matching_areas(areas, lo, hi)[k]
                < areas.len() && areas[matching_areas(areas, lo, hi)[k] as int].start == lo
                && areas[matching_areas(areas, lo, hi)[k] as int].end == hi,
        forall|i: int|
            0 <= i < areas.len() && (#[trigger] areas[i]).start == lo && areas[i].end == hi
                ==> matching_areas(areas, lo, hi).contains(i as usize),
{
    let all = Seq::new(areas.len(), |i: int| i as usize);
    let pred = |i: usize| areas[i as int].start == lo && areas[i as int].end == hi;
    assert forall|k: int| 0 <= k < all.filter(pred).len() implies #[trigger] all.filter(pred)[k] < areas.len()
        && areas[all.filter(pred)[k] as int].start == lo && areas[all.filter(pred)[k] as int].end == hi by {
        all.lemma_filter_pred(pred, k);
        all.lemma_filter_contains_rev(pred, all.filter(pred)[k]);
    }
    assert forall|i: int| 0 <= i < areas.len() && (#[trigger] areas[i]).start == lo && areas[i].end == hi
        implies all.filter(pred).contains(i as usize) by {
        assert(all[i] == i as usize);
        all.lemma_filter_contains(pred, i);
    }
}

} // verus!
