use riscv_kernel::fdt::{fdt_magic_matches, DeviceTree, FDTReserveEntry, FDT_MAGIC};

fn header_bytes(magic: u32, rsvmap: u32) -> Vec<u8> {
    let fields = [magic, 0x1000, 0x40, 0x800, rsvmap, 17, 16, 0, 0x100, 0x700];
    let mut v = Vec::new();
    for f in fields {
        v.extend_from_slice(&f.to_be_bytes());
    }
    v
}

#[test]
fn device_tree_rejects_bad_magic() {
    let bytes = header_bytes(0xedfe_0dd0, 0x28);
    assert_eq!(DeviceTree::new(0x8220_0000, &bytes).err(), Some("Invalid magic number"));
}

#[test]
fn device_tree_decodes_header() {
    let bytes = header_bytes(FDT_MAGIC, 0x28);
    let dt = DeviceTree::new(0x8220_0000, &bytes).unwrap();
    assert_eq!(dt.header.address, 0x8220_0000);
    assert_eq!(dt.header.total_size, 0x1000);
    assert_eq!(dt.header.off_dt_struct, 0x40);
    assert_eq!(dt.header.off_dt_strings, 0x800);
    assert_eq!(dt.header.off_mem_rsvmap, 0x28);
    assert_eq!(dt.header.version, 17);
    assert_eq!(dt.header.last_comp_version, 16);
    assert_eq!(dt.header.boot_cpuid_phys, 0);
    assert_eq!(dt.header.size_dt_strings, 0x100);
    assert_eq!(dt.header.size_dt_struct, 0x700);
}

#[test]
fn reservation_head_rounds_offset_to_words() {
    let dt = DeviceTree::new(0x8220_0000, &header_bytes(FDT_MAGIC, 0x2c)).unwrap();
    assert_eq!(dt.memory_reservation_head(), 0x8220_0028);
}

#[test]
fn reserve_entry_is_big_endian() {
    let mut bytes = Vec::new();
    bytes.extend_from_slice(&0x8000_0000u64.to_be_bytes());
    bytes.extend_from_slice(&0x20_0000u64.to_be_bytes());
    let e = FDTReserveEntry::new(&bytes, 0);
    assert_eq!(e, FDTReserveEntry { address: 0x8000_0000, size: 0x20_0000 });
}

#[test]
fn walk_stops_at_empty_entry() {
    let dt = DeviceTree::new(0x8220_0000, &header_bytes(FDT_MAGIC, 0x28)).unwrap();
    let mut map = Vec::new();
    for (a, s) in [(0x8000_0000u64, 0x20_0000u64), (0x8800_0000, 0x1000), (0, 0), (5, 5)] {
        map.extend_from_slice(&a.to_be_bytes());
        map.extend_from_slice(&s.to_be_bytes());
    }
    let entries = dt.walk(&map);
    assert_eq!(
        entries,
        vec![
            FDTReserveEntry { address: 0x8000_0000, size: 0x20_0000 },
            FDTReserveEntry { address: 0x8800_0000, size: 0x1000 },
        ]
    );
}

#[test]
fn walk_of_empty_map() {
    let dt = DeviceTree::new(0, &header_bytes(FDT_MAGIC, 0x28)).unwrap();
    assert!(dt.walk(&[0u8; 16]).is_empty());
}

#[test]
fn bad_magic_needs_only_four_bytes() {
    assert_eq!(DeviceTree::new(0, &[0xd0, 0x0d, 0xfe, 0xee]).err(), Some("Invalid magic number"));
}

#[test]
fn magic_check_reads_big_endian() {
    assert!(fdt_magic_matches(&[0xd0, 0x0d, 0xfe, 0xed]));
    assert!(!fdt_magic_matches(&[0xed, 0xfe, 0x0d, 0xd0]));
    assert!(fdt_magic_matches(&header_bytes(FDT_MAGIC, 0x28)));
}
