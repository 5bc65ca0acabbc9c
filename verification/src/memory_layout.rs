use vstd::prelude::*;

verus! {

/// Size in bytes of one page of physical or virtual memory.
pub const PAGE_SIZE: u64 = 4096;

/// First address that an Sv39 virtual address can no longer reach with its sign bit clear.
pub const MAX_SV39_ADDRESS: u64 = 0x40_0000_0000;

/// Physical address at which the kernel image is loaded (the start of DRAM).
pub const KERNEL_BASE: u64 = 0x8000_0000;

/// Whether `a` lies on a page boundary.
pub open spec fn page_aligned(a: int) -> bool {
    a % (PAGE_SIZE as int) == 0
}

/// The address that `round_up_to_page_boundary` computes: always the *next* boundary,
/// a full page further when `a` is already aligned.
pub open spec fn round_up_spec(a: int) -> int {
    a + PAGE_SIZE - a % (PAGE_SIZE as int)
}

/// The largest page boundary that is not above `a`.
pub open spec fn round_down_spec(a: int) -> int {
    a - a % (PAGE_SIZE as int)
}

/// A physical or virtual address.
#[derive(Clone, Copy, PartialEq, Eq, Structural, PartialOrd, Debug)]
pub struct Address(pub u64);

impl Address {
    /// The numeric value of the address.
    pub fn get(&self) -> (r: u64)
        ensures
            r == self.0,
    {
        self.0
    }

    /// The address `offset` bytes further on.
    pub fn add(&self, offset: u64) -> (r: Address)
        requires
            self.0 + offset <= u64::MAX,
        ensures
            r.0 == self.0 + offset,
    {
        Address(self.0 + offset)
    }

    /// The next page boundary strictly above this address.
    pub fn round_up_to_page_boundary(&self) -> (r: Address)
        requires
            round_up_spec(self.0 as int) <= u64::MAX,
        ensures
            r.0 == round_up_spec(self.0 as int),
            page_aligned(r.0 as int),
            self.0 < r.0 <= self.0 + PAGE_SIZE,
    {
        let offset = PAGE_SIZE - self.0 % PAGE_SIZE;
        Address(self.0 + offset)
    }

    /// The page boundary at or below this address.
    pub fn round_down_to_page_boundary(&self) -> (r: Address)
        ensures
            r.0 == round_down_spec(self.0 as int),
            page_aligned(r.0 as int),
            r.0 <= self.0 < r.0 + PAGE_SIZE,
    {
        let offset = self.0 % PAGE_SIZE;
        Address(self.0 - offset)
    }

    /// The distance in bytes from `rhs` up to this address.
    pub fn sub(self, rhs: Address) -> (r: u64)
        requires
            rhs.0 <= self.0,
        ensures
            r == self.0 - rhs.0,
    {
        self.0 - rhs.0
    }
}

/// Physical address at which the kernel image starts.
pub fn get_kernel_base() -> (r: Address)
    ensures
        r.0 == KERNEL_BASE,
{
    Address(KERNEL_BASE)
}

/// Rounding up and then down returns the rounded-up address, and rounding down
/// twice is the same as rounding down once.
pub proof fn lemma_rounding_idempotent(a: u64)
    ensures
        round_down_spec(round_down_spec(a as int)) == round_down_spec(a as int),
        round_down_spec(round_up_spec(a as int)) == round_up_spec(a as int),
        round_up_spec(round_down_spec(a as int)) == round_down_spec(a as int) + PAGE_SIZE,
{
}

} // verus!
