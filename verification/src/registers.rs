use vstd::prelude::*;

verus! {

/// The top bit of `scause`, set when the trap was an interrupt.
pub const SCAUSE_INTERRUPT_BIT: u64 = 0x8000_0000_0000_0000;

/// A value read from the `sstatus` register.
#[derive(Debug)]
pub struct SStatus {
    pub value: u64,
}

impl SStatus {
    /// Wraps a raw `sstatus` value.
    pub fn new(value: u64) -> (r: SStatus)
        ensures
            r.value == value,
    {
        SStatus { value }
    }
}

/// A value read from the `scause` register, split into its interrupt flag and its code.
#[derive(Debug)]
pub struct SCause {
    pub interrupt: bool,
    pub value: u64,
}

impl SCause {
    /// Splits a raw `scause` value into the interrupt flag (the top bit) and the exception
    /// code (the other bits).
    pub fn new(value: u64) -> (r: SCause)
        ensures
            r.interrupt == (value >= SCAUSE_INTERRUPT_BIT),
            r.value == value % SCAUSE_INTERRUPT_BIT,
    {
        proof {
            assert((((value >> 63u64) & 1) == 1) == (value >= 0x8000_0000_0000_0000u64)) by (bit_vector);
            assert(value & 0x7FFF_FFFF_FFFF_FFFFu64 == value % 0x8000_0000_0000_0000u64) by (bit_vector);
        }
        SCause { interrupt: ((value >> 63) & 0b1) == 1, value: value & 0x7FFF_FFFF_FFFF_FFFF }
    }
}

/// The interrupt flag and the code of an `scause` value put back together give the value.
pub proof fn lemma_scause_recombines(value: u64)
    ensures
        (if value >= SCAUSE_INTERRUPT_BIT {
            SCAUSE_INTERRUPT_BIT as int
        } else {
            0int
        }) + value % SCAUSE_INTERRUPT_BIT == value,
{
}

} // verus!
