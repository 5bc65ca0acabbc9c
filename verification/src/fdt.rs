use vstd::prelude::*;

verus! {

/// The magic number that opens every flattened device tree.
pub const FDT_MAGIC: u32 = 0xd00d_feed;

/// Size in bytes of the device-tree header that the kernel reads.
pub const FDT_HEADER_SIZE: usize = 40;

/// The big-endian 32-bit number in `s[off..off + 4]`.
pub open spec fn be_u32(s: Seq<u8>, off: int) -> u32 {
    (s[off] as int * 0x100_0000 + s[off + 1] as int * 0x1_0000 + s[off + 2] as int * 0x100 + s[off
        + 3] as int) as u32
}

/// The big-endian 64-bit number in `s[off..off + 8]`.
pub open spec fn be_u64(s: Seq<u8>, off: int) -> u64 {
    (be_u32(s, off) as int * 0x1_0000_0000 + be_u32(s, off + 4) as int) as u64
}

/// The four bytes at `off` read as one big-endian 32-bit number: the first byte is the most
/// significant, and every byte counts.
pub proof fn lemma_be_u32_bytes(s: Seq<u8>, off: int)
    requires
        0 <= off,
        off + 4 <= s.len(),
    ensures
        be_u32(s, off) as int == s[off] as int * 0x100_0000 + s[off + 1] as int * 0x1_0000 + s[off
            + 2] as int * 0x100 + s[off + 3] as int,
{
}

/// The eight bytes at `off` read as one big-endian 64-bit number: the first byte is the most
/// significant, and every byte counts.
pub proof fn lemma_be_u64_bytes(s: Seq<u8>, off: int)
    requires
        0 <= off,
        off + 8 <= s.len(),
    ensures
        be_u64(s, off) as int == s[off] as int * 0x100_0000_0000_0000 + s[off + 1] as int
            * 0x1_0000_0000_0000 + s[off + 2] as int * 0x100_0000_0000 + s[off + 3] as int
            * 0x1_0000_0000 + s[off + 4] as int * 0x100_0000 + s[off + 5] as int * 0x1_0000
            + s[off + 6] as int * 0x100 + s[off + 7] as int,
{
    let hi = s[off] as int * 0x100_0000 + s[off + 1] as int * 0x1_0000 + s[off + 2] as int * 0x100
        + s[off + 3] as int;
    let lo = s[off + 4] as int * 0x100_0000 + s[off + 5] as int * 0x1_0000 + s[off + 6] as int
        * 0x100 + s[off + 7] as int;
    assert(0 <= hi < 0x1_0000_0000);
    assert(0 <= lo < 0x1_0000_0000);
    assert(be_u32(s, off) as int == hi);
    assert(be_u32(s, off + 4) as int == lo);
    assert(0 <= hi * 0x1_0000_0000 + lo <= u64::MAX);
}

/// Reads the big-endian 32-bit number at `off`.
fn read_be_u32(bytes: &[u8], off: usize) -> (r: u32)
    requires
        off + 4 <= bytes@.len(),
    ensures
        r == be_u32(bytes@, off as int),
{
    let b0 = bytes[off];
    let b1 = bytes[off + 1];
    let b2 = bytes[off + 2];
    let b3 = bytes[off + 3];
    proof {
        assert(((b0 as u32) << 24u32) | ((b1 as u32) << 16u32) | ((b2 as u32) << 8u32) | (b3 as u32)
            == b0 as u32 * 0x100_0000 + b1 as u32 * 0x1_0000 + b2 as u32 * 0x100 + b3 as u32)
            by (bit_vector);
    }
    ((b0 as u32) << 24) | ((b1 as u32) << 16) | ((b2 as u32) << 8) | (b3 as u32)
}

/// Whether `header`, the first bytes of a device tree, opens with the magic number.
pub fn fdt_magic_matches(header: &[u8]) -> (r: bool)
    requires
        header@.len() >= 4,
    ensures
        r == (be_u32(header@, 0) == FDT_MAGIC),
{
    read_be_u32(header, 0) == FDT_MAGIC
}

/// Reads the big-endian 64-bit number at `off`.
fn read_be_u64(bytes: &[u8], off: usize) -> (r: u64)
    requires
        off + 8 <= bytes@.len(),
    ensures
        r == be_u64(bytes@, off as int),
{
    proof {
        assert(bytes@.len() <= usize::MAX) by {
            assert(bytes.len() == bytes@.len());
        }
    }
    let hi = read_be_u32(bytes, off);
    let lo = read_be_u32(bytes, off + 4);
    proof {
        assert(((hi as u64) << 32u64) | (lo as u64) == hi as u64 * 0x1_0000_0000 + lo as u64)
            by (bit_vector);
    }
    ((hi as u64) << 32) | (lo as u64)
}

/// The header of a flattened device tree, its fields decoded from big endian.
#[derive(Debug)]
pub struct FDTHeader {
    pub address: u64,
    pub total_size: u32,
    pub off_dt_struct: u32,
    pub off_dt_strings: u32,
    pub off_mem_rsvmap: u32,
    pub version: u32,
    pub last_comp_version: u32,
    pub boot_cpuid_phys: u32,
    pub size_dt_strings: u32,
    pub size_dt_struct: u32,
}

/// One entry of the memory reservation map.
#[derive(Debug, Clone, Copy, PartialEq, Eq, Structural)]
pub struct FDTReserveEntry {
    pub address: u64,
    pub size: u64,
}

/// Entry `k` of the reservation map that `s` holds.
pub open spec fn reserve_entry(s: Seq<u8>, k: int) -> FDTReserveEntry {
    FDTReserveEntry { address: be_u64(s, 16 * k), size: be_u64(s, 16 * k + 8) }
}

/// The entry that ends the reservation map.
pub open spec fn is_terminator(e: FDTReserveEntry) -> bool {
    e.address == 0 && e.size == 0
}

/// `s` holds a whole reservation map: some entry that fits in `s` ends it.
pub open spec fn has_terminator(s: Seq<u8>) -> bool {
    exists|k: int| 0 <= k && 16 * (k + 1) <= s.len() && #[trigger] is_terminator(reserve_entry(s, k))
}

impl FDTReserveEntry {
    /// Decodes the entry stored at `offset`: a big-endian address, then a big-endian size.
    pub fn new(bytes: &[u8], offset: usize) -> (r: FDTReserveEntry)
        requires
            offset + 16 <= bytes@.len(),
        ensures
            r.address == be_u64(bytes@, offset as int),
            r.size == be_u64(bytes@, offset + 8),
    {
        proof {
            assert(bytes@.len() <= usize::MAX) by {
                assert(bytes.len() == bytes@.len());
            }
        }
        FDTReserveEntry { address: read_be_u64(bytes, offset), size: read_be_u64(bytes, offset + 8) }
    }
}

/// A flattened device tree, known by its header.
#[derive(Debug)]
pub struct DeviceTree {
    pub header: FDTHeader,
}

impl DeviceTree {
    /// Decodes the header that `header` holds, the first bytes of the device tree that
    /// starts at physical address `address`. Fails when the magic number is wrong, having
    /// read only the magic number.
    pub fn new(address: u64, header: &[u8]) -> (r: Result<DeviceTree, &'static str>)
        requires
            header@.len() >= 4,
            be_u32(header@, 0) == FDT_MAGIC ==> header@.len() >= FDT_HEADER_SIZE,
        ensures
            r is Ok <==> be_u32(header@, 0) == FDT_MAGIC,
            r matches Err(e) ==> e@ == "Invalid magic number"@,
            r matches Ok(dt) ==> {
                let h = header@;
                &&& dt.header.address == address
                &&& dt.header.total_size == be_u32(h, 4)
                &&& dt.header.off_dt_struct == be_u32(h, 8)
                &&& dt.header.off_dt_strings == be_u32(h, 12)
                &&& dt.header.off_mem_rsvmap == be_u32(h, 16)
                &&& dt.header.version == be_u32(h, 20)
                &&& dt.header.last_comp_version == be_u32(h, 24)
                &&& dt.header.boot_cpuid_phys == be_u32(h, 28)
                &&& dt.header.size_dt_strings == be_u32(h, 32)
                &&& dt.header.size_dt_struct == be_u32(h, 36)
            },
    {
        let magic = read_be_u32(header, 0);
        if magic != FDT_MAGIC {
            return Err("Invalid magic number");
        }
        Ok(
            DeviceTree {
                header: FDTHeader {
                    address,
                    total_size: read_be_u32(header, 4),
                    off_dt_struct: read_be_u32(header, 8),
                    off_dt_strings: read_be_u32(header, 12),
                    off_mem_rsvmap: read_be_u32(header, 16),
                    version: read_be_u32(header, 20),
                    last_comp_version: read_be_u32(header, 24),
                    boot_cpuid_phys: read_be_u32(header, 28),
                    size_dt_strings: read_be_u32(header, 32),
                    size_dt_struct: read_be_u32(header, 36),
                },
            },
        )
    }

    /// Physical address of the memory reservation map: the header's offset, rounded down to
    /// whole 64-bit words, past the start of the tree.
    pub fn memory_reservation_head(&self) -> (r: u64)
        requires
            self.header.address + (self.header.off_mem_rsvmap / 8) * 8 <= u64::MAX,
        ensures
            r == self.header.address + (self.header.off_mem_rsvmap / 8) * 8,
    {
        self.header.address + ((self.header.off_mem_rsvmap / 8) as u64) * 8
    }

    /// The entries of the reservation map that `rsvmap` holds, from its start up to the
    /// entry whose address and size are both zero, which ends the map and is left out.
    pub fn walk(&self, rsvmap: &[u8]) -> (r: Vec<FDTReserveEntry>)
        requires
            has_terminator(rsvmap@),
        ensures
            16 * (r@.len() + 1) <= rsvmap@.len(),
            is_terminator(reserve_entry(rsvmap@, r@.len() as int)),
            forall|i: int|
                0 <= i < r@.len() ==> #[trigger] r@[i] == reserve_entry(rsvmap@, i)
                    && !is_terminator(r@[i]),
    {
        let len = rsvmap.len();
        let mut entries: Vec<FDTReserveEntry> = Vec::new();
        let mut it: usize = 0;
        let ghost t = choose|k: int|
            0 <= k && 16 * (k + 1) <= rsvmap@.len() && #[trigger] is_terminator(
                reserve_entry(rsvmap@, k),
            );
        loop
            invariant
                0 <= t,
                16 * (t + 1) <= rsvmap@.len(),
                len == rsvmap@.len(),
                is_terminator(reserve_entry(rsvmap@, t)),
                it == 16 * entries@.len(),
                entries@.len() <= t,
                forall|i: int|
                    0 <= i < entries@.len() ==> #[trigger] entries@[i] == reserve_entry(rsvmap@, i)
                        && !is_terminator(entries@[i]),
            ensures
                16 * (entries@.len() + 1) <= rsvmap@.len(),
                is_terminator(reserve_entry(rsvmap@, entries@.len() as int)),
                forall|i: int|
                    0 <= i < entries@.len() ==> #[trigger] entries@[i] == reserve_entry(rsvmap@, i)
                        && !is_terminator(entries@[i]),
            decreases t - entries@.len(),
        {
            let entry = FDTReserveEntry::new(rsvmap, it);
            if entry.address == 0 && entry.size == 0 {
                break;
            }
            entries.push(entry);
            it = it + 16;
        }
        entries
    }
}

} // verus!
