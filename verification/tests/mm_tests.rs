use lib::mm::{
    get_page_from_vir, init, page_offset, ppn_to_pa, va_ceil, va_floor, va_from, InitStep,
    PageTable, PageTableEntry,
};

fn table() -> PageTable {
    PageTable {
        entries: vec![
            (0x1, PageTableEntry { ppn: 0x80, valid: true }),
            (0x2, PageTableEntry { ppn: 0x81, valid: false }),
            (0x1, PageTableEntry { ppn: 0x99, valid: true }),
        ],
    }
}

#[test]
fn init_runs_heap_then_frames_then_kernel_space() {
    assert_eq!(
        init(),
        vec![InitStep::InitHeap, InitStep::InitFrameAllocator, InitStep::ActivateKernelSpace]
    );
}

#[test]
fn translation_adds_offset_to_frame() {
    let pt = table();
    assert_eq!(get_page_from_vir(&pt, 0x1234), Some(0x80 * 4096 + 0x234));
    assert_eq!(get_page_from_vir(&pt, 0x1000), Some(0x80_000));
}

#[test]
fn translation_uses_first_entry_and_ignores_valid_bit() {
    let pt = table();
    assert_eq!(get_page_from_vir(&pt, 0x1fff), Some(0x80 * 4096 + 0xfff));
    assert_eq!(get_page_from_vir(&pt, 0x2008), Some(0x81 * 4096 + 8));
}

#[test]
fn translation_of_unreached_page_fails() {
    let pt = table();
    assert_eq!(get_page_from_vir(&pt, 0x3000), None);
    assert_eq!(get_page_from_vir(&pt, 0), None);
}

#[test]
fn page_arithmetic() {
    assert_eq!(page_offset(0x1234), 0x234);
    assert_eq!(va_floor(0x1fff), 1);
    assert_eq!(va_ceil(0), 0);
    assert_eq!(va_ceil(1), 1);
    assert_eq!(va_ceil(4096), 1);
    assert_eq!(va_ceil(4097), 2);
    assert_eq!(va_from((1usize << 40) | 5), 5);
    assert_eq!(va_from(0x7f_ffff_ffff), 0x7f_ffff_ffff);
    assert_eq!(ppn_to_pa(3), 3 * 4096);
}
