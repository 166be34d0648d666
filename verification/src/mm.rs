//! Memory management: SV39 address arithmetic, page-table lookup and the
//! kernel's memory start-up sequence.
use vstd::prelude::*;

verus! {

/// Bytes per page.
pub const PAGE_SIZE: usize = 4096;

/// One step of the kernel's memory start-up.
#[derive(Debug, Clone, Copy, PartialEq, Eq, Structural)]
pub enum InitStep {
    /// Set up the kernel heap allocator.
    InitHeap,
    /// Set up the physical frame allocator.
    InitFrameAllocator,
    /// Build the kernel address space and switch to it.
    ActivateKernelSpace,
}

/// The start-up sequence of memory management: the heap first, then the
/// frame allocator, then the kernel address space is activated.
pub fn init() -> (steps: Vec<InitStep>)
    ensures
        steps@ == seq![InitStep::InitHeap, InitStep::InitFrameAllocator, InitStep::ActivateKernelSpace],
{
    let mut steps: Vec<InitStep> = Vec::new();
    steps.push(InitStep::InitHeap);
    steps.push(InitStep::InitFrameAllocator);
    steps.push(InitStep::ActivateKernelSpace);
    steps
}

/// A leaf page-table entry, as far as the system calls read it.
#[derive(Debug, Clone, Copy, PartialEq, Eq, Structural)]
pub struct PageTableEntry {
    /// Physical page number the entry points to.
    pub ppn: usize,
    /// The entry's valid bit.
    pub valid: bool,
}

/// The leaf entries a page table reaches, by virtual page number.
pub struct PageTable {
    pub entries: Vec<(usize, PageTableEntry)>,
}

/// The leaf entry that a lookup of `vpn` finds: the first one listed.
pub open spec fn translate_spec(entries: Seq<(usize, PageTableEntry)>, vpn: usize) -> Option<
    PageTableEntry,
> {
    if exists|k: int| is_first_vpn(entries, vpn, k) {
        Some(entries[choose|k: int| is_first_vpn(entries, vpn, k)].1)
    } else {
        None
    }
}

/// `k` is the first position listing `vpn`.
pub open spec fn is_first_vpn(entries: Seq<(usize, PageTableEntry)>, vpn: usize, k: int) -> bool {
    &&& 0 <= k < entries.len()
    &&& entries[k].0 == vpn
    &&& forall|j: int| 0 <= j < k ==> entries[j].0 != vpn
}

impl PageTable {
    /// Every physical page number fits in the SV39 field.
    pub open spec fn wf(&self) -> bool {
        forall|k: int| 0 <= k < self.entries@.len() ==> #[trigger] self.entries@[k].1.ppn * PAGE_SIZE + PAGE_SIZE <= usize::MAX + 1
    }

    /// The leaf entry for `vpn`, if the page table reaches one.
    pub fn translate(&self, vpn: usize) -> (r: Option<PageTableEntry>)
        ensures
            r == translate_spec(self.entries@, vpn),
    {
        let mut k: usize = 0;
        while k < self.entries.len()
            invariant
                k <= self.entries@.len(),
                forall|j: int| 0 <= j < k ==> self.entries@[j].0 != vpn,
            decreases self.entries@.len() - k,
        {
            if self.entries[k].0 == vpn {
                proof {
                    let e = self.entries@;
                    let c = choose|c: int| is_first_vpn(e, vpn, c);
                    assert(is_first_vpn(e, vpn, k as int));
                    if c < k {
                        assert(e[c].0 != vpn);
                    }
                    if k < c {
                        assert(e[k as int].0 != vpn);
                    }
                }
                return Some(self.entries[k].1);
            }
            k = k + 1;
        }
        None
    }
}

/// Virtual page number holding address `va`.
pub open spec fn floor_spec(va: usize) -> usize {
    (va / PAGE_SIZE) as usize
}

/// First virtual page number at or above address `va`.
pub open spec fn ceil_spec(va: usize) -> usize {
    if va == 0 {
        0
    } else {
        ((va - 1 + PAGE_SIZE) / PAGE_SIZE as int) as usize
    }
}

/// An address converted into a virtual address keeps its low 39 bits.
pub open spec fn va_from_spec(v: usize) -> usize {
    (v as int % 0x80_0000_0000int) as usize
}

/// Virtual page number holding `va`.
pub fn va_floor(va: usize) -> (r: usize)
    ensures
        r == floor_spec(va),
{
    va / PAGE_SIZE
}

/// First virtual page number at or above `va`.
pub fn va_ceil(va: usize) -> (r: usize)
    requires
        va == 0 || va - 1 + PAGE_SIZE <= usize::MAX,
    ensures
        r == ceil_spec(va),
{
    if va == 0 {
        0
    } else {
        (va - 1 + PAGE_SIZE) / PAGE_SIZE
    }
}

/// Offset of `va` within its page.
pub fn page_offset(va: usize) -> (r: usize)
    ensures
        r == va % PAGE_SIZE,
{
    let r = va & (PAGE_SIZE - 1);
    assert(va & 4095 == va % 4096) by (bit_vector);
    r
}

/// Converts an address into a virtual address: its low 39 bits.
pub fn va_from(v: usize) -> (r: usize)
    ensures
        r == va_from_spec(v),
{
    let x: u64 = v as u64;
    let m: u64 = x & 0x7f_ffff_ffff;
    assert(x & 0x7f_ffff_ffff == x % 0x80_0000_0000 && x & 0x7f_ffff_ffff <= x) by (bit_vector);
    m as usize
}

/// First byte of physical page `ppn`.
pub fn ppn_to_pa(ppn: usize) -> (r: usize)
    requires
        ppn * PAGE_SIZE + PAGE_SIZE <= usize::MAX + 1,
    ensures
        r == ppn * PAGE_SIZE,
{
    ppn * PAGE_SIZE
}

/// The physical address the page table maps `va` to: the leaf entry's
/// page plus the in-page offset, if the page table reaches a leaf entry.
pub open spec fn phys_addr_spec(entries: Seq<(usize, PageTableEntry)>, va: usize) -> Option<usize> {
    match translate_spec(entries, floor_spec(va)) {
        Some(pte) => Some((pte.ppn * PAGE_SIZE + va % PAGE_SIZE) as usize),
        None => None,
    }
}

/// The physical address that the page table maps `virt_addr` to: the
/// leaf entry's page plus the in-page offset. `None` where the page table
/// reaches no leaf entry for the address's page.
pub fn get_page_from_vir(page_table: &PageTable, virt_addr: usize) -> (r: Option<usize>)
    requires
        page_table.wf(),
    ensures
        r == phys_addr_spec(page_table.entries@, virt_addr),
{
    let offset = page_offset(virt_addr);
    let vpn = va_floor(virt_addr);
    match page_table.translate(vpn) {
        Some(pte) => {
            proof {
                let e = page_table.entries@;
                let c = choose|c: int| is_first_vpn(e, vpn, c);
                assert(e[c].1.ppn * PAGE_SIZE + PAGE_SIZE <= usize::MAX + 1);
            }
            let base = ppn_to_pa(pte.ppn);
            Some(base + offset)
        },
        None => None,
    }
}

} // verus!
