use vstd::prelude::*;

verus! {

/// The RISC-V hart the kernel runs on. Reading and writing its control registers is done
/// by the code around the library.
pub struct RISCV64 {}

impl RISCV64 {
    /// A handle on the current hart.
    pub fn new() -> (r: RISCV64) {
        RISCV64 {}
    }
}

} // verus!
