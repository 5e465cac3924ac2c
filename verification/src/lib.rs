//! A verified kernel heap subsystem: three interchangeable allocation
//! strategies over a fixed, caller-provided address range.
//!
//! The crate models heap memory at the level of addresses and sizes: an
//! allocator hands out `[address, address + size)` ranges carved from the
//! heap range it was initialized with, and the proofs show that the ranges
//! of live allocations are aligned, stay inside the heap, and never overlap.
//!
//! The three strategies share one interface shape:
//! - [`allocator::bump::BumpAllocator`]: a monotonic cursor; constant-time
//!   allocation, bulk-only reclamation.
//! - [`allocator::linked_list::LinkedListAllocator`]: first-fit over a list
//!   of free regions of arbitrary size.
//! - [`allocator::fixed_size_block::FixedSizeBlockAllocator`]: one free list
//!   per power-of-two size class, with the first-fit allocator embedded as
//!   fallback for oversize requests and for refilling empty classes.

use vstd::prelude::*;

pub mod allocator;
pub mod interrupts;

verus! {

/// An exit code that the surrounding test harness can hand to the
/// emulator's debug-exit device. Only the numeric code is modelled here;
/// writing it to the device port is hardware access and stays outside
/// this crate.
#[derive(Debug, Clone, Copy, PartialEq, Eq, Structural)]
pub enum QemuExitCode {
    Success,
    Failed,
}

impl QemuExitCode {
    /// The meaning of each variant on the wire.
    pub open spec fn spec_code(self) -> u32 {
        match self {
            QemuExitCode::Success => 0x10,
            QemuExitCode::Failed => 0x11,
        }
    }

    /// The raw value written to the exit device. The emulator reports
    /// `(code << 1) | 1` as the process exit status.
    pub fn code(self) -> (r: u32)
        ensures
            r == self.spec_code(),
    {
        match self {
            QemuExitCode::Success => 0x10,
            QemuExitCode::Failed => 0x11,
        }
    }
}

} // verus!
