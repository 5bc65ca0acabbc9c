use riscv_kernel::kalloc::{
    init_range, kalloc, kalloc_init, kfree, kzalloc, KernelPageAllocator, ALLOC_PAGE_SENTINEL,
    KERNEL_MEMORY_END,
};
use riscv_kernel::memory_layout::{Address, PAGE_SIZE};
use riscv_kernel::physical_memory::PhysicalMemory;

const PAGES: u64 = 4;

fn window() -> PhysicalMemory {
    let base = KERNEL_MEMORY_END - PAGES * PAGE_SIZE;
    PhysicalMemory::new(base, vec![0xdead_beef_u64; (PAGES * 512) as usize])
}

fn word(mem: &PhysicalMemory, addr: u64) -> u64 {
    mem.words[((addr - mem.base) / 8) as usize]
}

#[test]
fn init_range_starts_after_kernel() {
    let (s, e) = init_range(Address(0x8020_0123));
    assert_eq!(s, Address(0x8020_1000));
    assert_eq!(e, Address(0x8800_0000));
}

#[test]
fn kalloc_returns_highest_page_first() {
    let mut mem = window();
    let mut a = KernelPageAllocator::new();
    let base = mem.base;
    kalloc_init(&mut a, &mut mem, Address(base - 1));
    let p1 = kalloc(&mut a, &mut mem);
    let p2 = kalloc(&mut a, &mut mem);
    let p3 = kalloc(&mut a, &mut mem);
    let p4 = kalloc(&mut a, &mut mem);
    assert_eq!(p1, 0x87ff_f000);
    assert_eq!(p2, 0x87ff_e000);
    assert_eq!(p3, 0x87ff_d000);
    assert_eq!(p4, 0x87ff_c000);
}

#[test]
fn init_from_aligned_kernel_end_skips_a_page() {
    let mut mem = window();
    let mut a = KernelPageAllocator::new();
    let base = mem.base;
    kalloc_init(&mut a, &mut mem, Address(base));
    let mut got = Vec::new();
    for _ in 0..3 {
        got.push(kalloc(&mut a, &mut mem));
    }
    assert_eq!(got, vec![0x87ff_f000, 0x87ff_e000, 0x87ff_d000]);
}

#[test]
fn init_links_pages_in_memory() {
    let mut mem = window();
    let mut a = KernelPageAllocator::new();
    let base = mem.base;
    kalloc_init(&mut a, &mut mem, Address(base - 1));
    assert_eq!(word(&mem, 0x87ff_f000), 0x87ff_e000);
    assert_eq!(word(&mem, 0x87ff_e000), 0x87ff_d000);
    assert_eq!(word(&mem, 0x87ff_d000), 0x87ff_c000);
    assert_eq!(word(&mem, 0x87ff_c000), 0);
    assert_eq!(word(&mem, 0x87ff_c008), 0xdead_beef);
}

#[test]
fn kalloc_fills_page_with_sentinel() {
    let mut mem = window();
    let mut a = KernelPageAllocator::new();
    let base = mem.base;
    kalloc_init(&mut a, &mut mem, Address(base - 1));
    let p = kalloc(&mut a, &mut mem);
    assert_eq!(ALLOC_PAGE_SENTINEL, 5);
    for i in 0..512u64 {
        assert_eq!(word(&mem, p + 8 * i), 0x0505_0505_0505_0505);
    }
    assert_eq!(word(&mem, 0x87ff_e000), 0x87ff_d000);
}

#[test]
fn kzalloc_zeroes_page() {
    let mut mem = window();
    let mut a = KernelPageAllocator::new();
    let base = mem.base;
    kalloc_init(&mut a, &mut mem, Address(base - 1));
    let p = kzalloc(&mut a, &mut mem);
    for i in 0..512u64 {
        assert_eq!(word(&mem, p + 8 * i), 0);
    }
}

#[test]
fn kfree_then_kalloc_gives_same_page() {
    let mut mem = window();
    let mut a = KernelPageAllocator::new();
    let base = mem.base;
    kalloc_init(&mut a, &mut mem, Address(base - 1));
    let p = kalloc(&mut a, &mut mem);
    let q = kalloc(&mut a, &mut mem);
    kfree(&mut a, &mut mem, p);
    assert_eq!(word(&mem, p), 0x87ff_d000);
    assert_eq!(kalloc(&mut a, &mut mem), p);
    assert_eq!(kalloc(&mut a, &mut mem), 0x87ff_d000);
    assert_ne!(p, q);
}

#[test]
fn deallocate_then_allocate_with_sentinel() {
    let mut mem = window();
    let mut a = KernelPageAllocator::new();
    a.deallocate_page(&mut mem, Address(0x87ff_c000));
    a.deallocate_page(&mut mem, Address(0x87ff_e000));
    assert_eq!(word(&mem, 0x87ff_e000), 0x87ff_c000);
    assert_eq!(word(&mem, 0x87ff_c000), 0);
    assert_eq!(a.allocate_page(&mut mem, 0xab), Address(0x87ff_e000));
    assert_eq!(word(&mem, 0x87ff_eff8), 0xabab_abab_abab_abab);
    assert_eq!(a.allocate_page(&mut mem, 1), Address(0x87ff_c000));
}

#[test]
fn memset_page_fills_only_that_page() {
    let mut mem = window();
    KernelPageAllocator::memset_page(&mut mem, Address(0x87ff_d000), 0x7f);
    assert_eq!(word(&mem, 0x87ff_d000), 0x7f7f_7f7f_7f7f_7f7f);
    assert_eq!(word(&mem, 0x87ff_dff8), 0x7f7f_7f7f_7f7f_7f7f);
    assert_eq!(word(&mem, 0x87ff_cff8), 0xdead_beef);
    assert_eq!(word(&mem, 0x87ff_e000), 0xdead_beef);
}

#[test]
fn physical_memory_read_write() {
    let mut mem = window();
    mem.write(0x87ff_c010, 42);
    assert_eq!(mem.read(0x87ff_c010), 42);
    assert_eq!(mem.read(0x87ff_c008), 0xdead_beef);
}

#[test]
fn memset_from_word_aligned_address() {
    let mut mem = window();
    KernelPageAllocator::memset_page(&mut mem, Address(0x87ff_c008), 0x11);
    assert_eq!(word(&mem, 0x87ff_c000), 0xdead_beef);
    assert_eq!(word(&mem, 0x87ff_c008), 0x1111_1111_1111_1111);
    assert_eq!(word(&mem, 0x87ff_d000), 0x1111_1111_1111_1111);
    assert_eq!(word(&mem, 0x87ff_d008), 0xdead_beef);
}

#[test]
fn free_of_word_aligned_entry() {
    let mut mem = window();
    let mut a = KernelPageAllocator::new();
    kfree(&mut a, &mut mem, 0x87ff_c008);
    assert_eq!(word(&mem, 0x87ff_c008), 0);
    assert!(a.is_free(&mem, 0x87ff_c008));
    assert!(!a.holds_whole_pages(&mem));
    assert!(a.can_allocate(&mem));
    assert_eq!(a.allocate_page(&mut mem, 2), Address(0x87ff_c008));
}

#[test]
fn free_list_queries() {
    let mut mem = window();
    let mut a = KernelPageAllocator::new();
    assert_eq!(a.free_count(&mem), 0);
    assert!(!a.has_free_page());
    assert!(!a.can_allocate(&mem));
    assert!(a.holds_whole_pages(&mem));
    let base = mem.base;
    kalloc_init(&mut a, &mut mem, Address(base - 1));
    assert_eq!(a.free_count(&mem), 4);
    assert!(a.is_free(&mem, 0x87ff_d000));
    assert!(!a.is_free(&mem, 0x87ff_d008));
    assert!(a.holds_whole_pages(&mem));
    let p = kalloc(&mut a, &mut mem);
    assert!(!a.is_free(&mem, p));
    assert_eq!(a.free_count(&mem), 3);
}

#[test]
fn allocation_at_window_end_is_refused() {
    let mut mem = window();
    let mut a = KernelPageAllocator::new();
    a.deallocate_page(&mut mem, Address(0x87ff_f008));
    assert!(a.has_free_page());
    assert!(!a.can_allocate(&mem));
}

#[test]
fn live_pages_stay_apart_over_a_run() {
    let mut mem = window();
    let mut a = KernelPageAllocator::new();
    let base = mem.base;
    kalloc_init(&mut a, &mut mem, Address(base - 1));
    let mut live: Vec<u64> = Vec::new();
    // alloc, alloc, free the first, alloc, alloc, free the last, alloc, alloc
    let plan: [i32; 8] = [-1, -1, 0, -1, -1, 3, -1, -1];
    let mut handed: Vec<u64> = Vec::new();
    for step in plan {
        if step < 0 {
            if !a.has_free_page() {
                break;
            }
            let p = kalloc(&mut a, &mut mem);
            assert_eq!(p % PAGE_SIZE, 0);
            assert!(p >= base && p < KERNEL_MEMORY_END);
            assert!(!live.contains(&p));
            live.push(p);
            handed.push(p);
        } else {
            let p = handed[step as usize];
            live.retain(|q| *q != p);
            kfree(&mut a, &mut mem, p);
        }
    }
    assert_eq!(live.len(), 4);
}
