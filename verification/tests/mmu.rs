use riscv_kernel::kalloc::{kalloc_init, KernelPageAllocator, KERNEL_MEMORY_END};
use riscv_kernel::mapping_plan::{identity_mappable_exec, kernel_layout_fits, pages_to_map_exec};
use riscv_kernel::memory_layout::{Address, PAGE_SIZE};
use riscv_kernel::mmu::{mmu_init, PageTable, PageTableEntry, PageTableEntryField};
use riscv_kernel::physical_memory::PhysicalMemory;

const PAGES: u64 = 16;

fn setup() -> (PhysicalMemory, KernelPageAllocator) {
    let base = KERNEL_MEMORY_END - PAGES * PAGE_SIZE;
    let mut mem = PhysicalMemory::new(base, vec![0x1111_u64; (PAGES * 512) as usize]);
    let mut a = KernelPageAllocator::new();
    kalloc_init(&mut a, &mut mem, Address(base - 1));
    (mem, a)
}

#[test]
fn entry_flags() {
    let mut e = PageTableEntry { entry: 0 };
    assert!(!e.is_valid());
    e.set_valid();
    assert!(e.is_valid());
    assert_eq!(e.entry, 1);
    e.set_permission(PageTableEntryField::Execute);
    assert_eq!(e.entry, 0b1001);
    e.set_permissions(&[PageTableEntryField::Read, PageTableEntryField::Write]);
    assert_eq!(e.entry, 0b1111);
}

#[test]
fn entry_address_round_trip() {
    let mut e = PageTableEntry { entry: 0xffff };
    e.set_from_physical_address(Address(0x8765_4321));
    assert_eq!(e.entry, (0x87654 << 10));
    assert_eq!(e.to_inner_page_table(), 0x8765_4000);
    e.set_from_page_table(0x8000_2000);
    e.set_valid();
    assert_eq!(e.entry, (0x80002 << 10) | 1);
    assert_eq!(e.to_inner_page_table(), 0x8000_2000);
}

#[test]
fn vpn_per_level() {
    let va = Address(0x8020_1000);
    assert_eq!(PageTable::vpn(va, 2), 2);
    assert_eq!(PageTable::vpn(va, 1), 1);
    assert_eq!(PageTable::vpn(va, 0), 1);
    let top = Address(0x7f_ffff_f000);
    assert_eq!(PageTable::vpn(top, 2), 511);
    assert_eq!(PageTable::vpn(top, 1), 511);
    assert_eq!(PageTable::vpn(top, 0), 511);
}

#[test]
fn get_entry_address() {
    assert_eq!(PageTable::get_entry(0x8000_0000, Address(0x8020_1000), 2), Ok(0x8000_0010));
    assert_eq!(PageTable::get_entry(0x8000_0000, Address(0x8020_1000), 0), Ok(0x8000_0008));
}

#[test]
fn new_table_is_empty() {
    let (mut mem, mut a) = setup();
    let mut pt = PageTable::new(&mut a, &mut mem);
    assert_eq!(pt.root_address(), Address(0x87ff_f000));
    for i in 0..512u64 {
        assert_eq!(mem.read(0x87ff_f000 + 8 * i), 0);
    }
    assert_eq!(pt.walk(&mut mem, &mut a, Address(0x8000_0000), false), Err("PageTableEntry not found!"));
}

#[test]
fn map_then_walk_finds_entries() {
    let (mut mem, mut a) = setup();
    let mut pt = PageTable::new(&mut a, &mut mem);
    pt.map_pages(
        &mut mem,
        &mut a,
        Address(0x8000_0000),
        Address(0x9000_0000),
        0x2001,
        &[PageTableEntryField::Read, PageTableEntryField::Write],
    );
    for (k, va) in [0x8000_0000u64, 0x8000_1abc, 0x8000_2fff].iter().enumerate() {
        let p = pt.walk(&mut mem, &mut a, Address(*va), false).unwrap();
        let pa = 0x9000_0000 + 0x1000 * k as u64;
        assert_eq!(mem.read(p), ((pa >> 12) << 10) | 0b111);
        let e = PageTableEntry { entry: mem.read(p) };
        assert_eq!(e.to_inner_page_table(), pa);
    }
    // The page after the mapping shares the last-level table, but its entry is empty.
    let p = pt.walk(&mut mem, &mut a, Address(0x8000_3000), false).unwrap();
    assert_eq!(mem.read(p), 0);
    // A page under another root entry has no table at all.
    assert_eq!(pt.walk(&mut mem, &mut a, Address(0x4000_0000), false), Err("PageTableEntry not found!"));
}

#[test]
fn map_takes_one_table_per_missing_level() {
    let (mut mem, mut a) = setup();
    let mut pt = PageTable::new(&mut a, &mut mem);
    pt.map_pages(&mut mem, &mut a, Address(0x8000_0000), Address(0x8000_0000), 0x1000, &[PageTableEntryField::Read]);
    // Root came from the top page, then the level-1 and level-0 tables.
    assert_eq!(a.allocate_page(&mut mem, 0), Address(0x87ff_c000));
}

#[test]
fn walk_with_allocation_builds_path() {
    let (mut mem, mut a) = setup();
    let mut pt = PageTable::new(&mut a, &mut mem);
    let p = pt.walk(&mut mem, &mut a, Address(0x8020_1000), true).unwrap();
    // Level-1 table at 0x87ffe000, level-0 table at 0x87ffd000, index 1.
    assert_eq!(p, 0x87ff_d008);
    assert_eq!(mem.read(0x87ff_f000 + 8 * 2), (0x87ffe << 10) | 1);
    assert_eq!(mem.read(0x87ff_e000 + 8 * 1), (0x87ffd << 10) | 1);
    assert_eq!(mem.read(p), 0);
    // A second walk finds the same slot and allocates nothing.
    let q = pt.walk(&mut mem, &mut a, Address(0x8020_1fff), true).unwrap();
    assert_eq!(q, p);
    assert_eq!(a.allocate_page(&mut mem, 0), Address(0x87ff_c000));
}

#[test]
fn mmu_init_maps_text_and_data() {
    let (mut mem, mut a) = setup();
    let mut pt = mmu_init(&mut a, &mut mem, Address(0x8000_2000), Address(0x8000_3000), Address(0x8000_5000));
    assert_eq!(pt.satp(), Address((8 << 60) | (0x87ff_f000 >> 12)));
    let text = pt.walk(&mut mem, &mut a, Address(0x8000_1000), false).unwrap();
    assert_eq!(mem.read(text), (0x80001 << 10) | 0b1011);
    let data = pt.walk(&mut mem, &mut a, Address(0x8000_4000), false).unwrap();
    assert_eq!(mem.read(data), (0x80004 << 10) | 0b0111);
    let gap = pt.walk(&mut mem, &mut a, Address(0x8000_2000), false).unwrap();
    assert_eq!(mem.read(gap), 0);
}

#[test]
fn walk_without_allocation_leaves_memory_alone() {
    let (mut mem, mut a) = setup();
    let mut pt = PageTable::new(&mut a, &mut mem);
    pt.map_pages(&mut mem, &mut a, Address(0x8000_0000), Address(0x8000_0000), 0x1000, &[PageTableEntryField::Read]);
    let before = mem.words.clone();
    assert!(pt.walk(&mut mem, &mut a, Address(0x8000_0000), false).is_ok());
    assert!(pt.walk(&mut mem, &mut a, Address(0x1_0000_0000), false).is_err());
    assert_eq!(mem.words, before);
}

#[test]
fn mapping_writes_only_table_pages() {
    let (mut mem, mut a) = setup();
    let before = mem.words.clone();
    let pt = mmu_init(&mut a, &mut mem, Address(0x8000_2000), Address(0x8000_3000), Address(0x8000_5000));
    // The root, one level-1 and one level-0 table: the three highest pages.
    assert_eq!(pt.root_address(), Address(0x87ff_f000));
    let first_table_word = ((0x87ff_d000u64 - mem.base) / 8) as usize;
    for i in 0..first_table_word {
        if i % 512 != 0 {
            assert_eq!(mem.words[i], before[i]);
        }
    }
}

#[test]
fn layout_fits_small_kernel() {
    let (mem, a) = setup();
    assert!(kernel_layout_fits(&a, &mem, Address(0x8000_2000), Address(0x8000_3000), Address(0x8000_5000)));
    // Data sharing a page with the code.
    assert!(!kernel_layout_fits(&a, &mem, Address(0x8000_2000), Address(0x8000_1800), Address(0x8000_5000)));
    // Empty code range.
    assert!(!kernel_layout_fits(&a, &mem, Address(0x8000_0000), Address(0x8000_3000), Address(0x8000_5000)));
    // Data 2^39 bytes above the code selects the same leaves.
    assert!(!kernel_layout_fits(&a, &mem, Address(0x8000_2000), Address(0x80_8000_0000), Address(0x80_8000_1000)));
    assert!(identity_mappable_exec(0x8000_0000, 0x2001));
    assert_eq!(pages_to_map_exec(0x8000_0fff, 2), 2);
    assert!(!identity_mappable_exec(u64::MAX - 10, 5));
    assert!(!identity_mappable_exec(0x8000_0000, 0));
}

#[test]
fn layout_needs_enough_pages() {
    let base = KERNEL_MEMORY_END - 3 * PAGE_SIZE;
    let mut mem = PhysicalMemory::new(base, vec![0u64; 3 * 512]);
    let mut a = KernelPageAllocator::new();
    kalloc_init(&mut a, &mut mem, Address(base - 1));
    // Root, one level-1 and one level-0 table: three pages are enough when code and data
    // share both upper tables.
    assert!(kernel_layout_fits(&a, &mem, Address(0x8000_2000), Address(0x8000_3000), Address(0x8000_5000)));
    // Data under another level-1 entry needs a fourth page.
    assert!(!kernel_layout_fits(&a, &mem, Address(0x8000_2000), Address(0x8020_0000), Address(0x8020_1000)));
}

#[test]
fn walk_links_zeroed_tables() {
    let (mut mem, mut a) = setup();
    let mut pt = PageTable::new(&mut a, &mut mem);
    pt.walk(&mut mem, &mut a, Address(0x8020_1000), true).unwrap();
    for i in 0..512u64 {
        let root_entry = mem.read(0x87ff_f000 + 8 * i);
        assert_eq!(root_entry, if i == 2 { (0x87ffe << 10) | 1 } else { 0 });
        let l1_entry = mem.read(0x87ff_e000 + 8 * i);
        assert_eq!(l1_entry, if i == 1 { (0x87ffd << 10) | 1 } else { 0 });
        assert_eq!(mem.read(0x87ff_d000 + 8 * i), 0);
    }
}
