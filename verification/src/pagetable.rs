use vstd::prelude::*;

verus! {

/// One page-table entry as the hardware lays it out.
#[derive(Clone, Copy, PartialEq, Eq, Structural, Debug)]
pub struct PagetableEntry {
    entry: u64,
}

/// A page table: 512 entries filling one page.
pub struct Pagetable {
    pub entries: [PagetableEntry; 512],
}

impl PagetableEntry {
    /// An entry holding the raw value `entry`.
    pub fn from_raw(entry: u64) -> (r: PagetableEntry)
        ensures
            r.raw() == entry,
    {
        PagetableEntry { entry }
    }

    /// The raw value of the entry.
    pub closed spec fn raw(&self) -> u64 {
        self.entry
    }

    /// Whether the valid bit (bit 0) is set.
    pub fn is_valid(&self) -> (r: bool)
        ensures
            r == (self.raw() % 2 == 1),
    {
        proof {
            let e = self.entry;
            assert(((e & 1) == 1) == (e % 2 == 1)) by (bit_vector);
        }
        self.entry & 1 == 1
    }
}

} // verus!
