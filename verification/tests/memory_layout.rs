use riscv_kernel::memory_layout::{get_kernel_base, Address, KERNEL_BASE, PAGE_SIZE};

#[test]
fn address_get_returns_value() {
    assert_eq!(Address(0x1234).get(), 0x1234);
}

#[test]
fn address_add_offsets() {
    assert_eq!(Address(0x8000_0000).add(128 * 1024 * 1024), Address(0x8800_0000));
}

#[test]
fn round_up_unaligned_goes_to_next_boundary() {
    assert_eq!(Address(0x8000_0001).round_up_to_page_boundary(), Address(0x8000_1000));
    assert_eq!(Address(0x8000_0fff).round_up_to_page_boundary(), Address(0x8000_1000));
}

#[test]
fn round_up_aligned_skips_a_whole_page() {
    assert_eq!(Address(0x8000_0000).round_up_to_page_boundary(), Address(0x8000_1000));
    assert_eq!(Address(0).round_up_to_page_boundary(), Address(PAGE_SIZE));
}

#[test]
fn round_down_to_boundary() {
    assert_eq!(Address(0x8000_0fff).round_down_to_page_boundary(), Address(0x8000_0000));
    assert_eq!(Address(0x8000_1000).round_down_to_page_boundary(), Address(0x8000_1000));
    assert_eq!(Address(7).round_down_to_page_boundary(), Address(0));
}

#[test]
fn rounding_twice_is_stable() {
    let a = Address(0x1234_5678);
    let d = a.round_down_to_page_boundary();
    assert_eq!(d.round_down_to_page_boundary(), d);
    let u = a.round_up_to_page_boundary();
    assert_eq!(u.round_down_to_page_boundary(), u);
}

#[test]
fn address_sub_gives_distance() {
    assert_eq!(Address(0x8000_3000).sub(Address(0x8000_0000)), 0x3000);
}

#[test]
fn kernel_base_is_start_of_dram() {
    assert_eq!(get_kernel_base(), Address(0x8000_0000));
    assert_eq!(KERNEL_BASE, 0x8000_0000);
}
