use riscv_kernel::cpu::RISCV64;
use riscv_kernel::pagetable::PagetableEntry;
use riscv_kernel::registers::{SCause, SStatus};

#[test]
fn sstatus_keeps_value() {
    assert_eq!(SStatus::new(0x8000_0000_0000_6000).value, 0x8000_0000_0000_6000);
}

#[test]
fn scause_splits_interrupt_bit() {
    let c = SCause::new(0x8000_0000_0000_0005);
    assert!(c.interrupt);
    assert_eq!(c.value, 5);
}

#[test]
fn scause_exception_has_no_interrupt_bit() {
    let c = SCause::new(13);
    assert!(!c.interrupt);
    assert_eq!(c.value, 13);
}

#[test]
fn scause_recombines() {
    for v in [0u64, 1, 0x7fff_ffff_ffff_ffff, 0x8000_0000_0000_0000, u64::MAX] {
        let c = SCause::new(v);
        let back = if c.interrupt { 0x8000_0000_0000_0000 } else { 0 } + c.value;
        assert_eq!(back, v);
    }
}

#[test]
fn pagetable_entry_valid_bit() {
    assert!(PagetableEntry::from_raw(1).is_valid());
    assert!(PagetableEntry::from_raw(0x2000_0cf).is_valid());
    assert!(!PagetableEntry::from_raw(0).is_valid());
    assert!(!PagetableEntry::from_raw(0x2000_0ce).is_valid());
}

#[test]
fn cpu_handle_exists() {
    let _cpu = RISCV64::new();
}
