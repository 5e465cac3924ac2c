//! The numbering of hardware interrupts.
//!
//! Handling interrupts is hardware work and stays outside this crate;
//! what is modelled here is the pure part: the interrupt vector numbers
//! that the remapped controllers deliver. The first controller's lines
//! start right after the 32 CPU exception vectors.

use vstd::prelude::*;

verus! {

/// First vector of the primary interrupt controller: the 32 CPU
/// exception vectors come before it.
const PIC_1_OFFSET: u8 = 32;

/// Hardware interrupts, by the lines this kernel listens to.
#[derive(Debug, Clone, Copy)]
pub enum InterruptIndex {
    Timer,
    Keyboard,
}

impl InterruptIndex {
    /// The interrupt vector number of each line.
    pub open spec fn spec_u8(self) -> u8 {
        match self {
            InterruptIndex::Timer => 32,
            InterruptIndex::Keyboard => 33,
        }
    }

    /// The vector number, for programming the controller.
    pub fn as_u8(self) -> (r: u8)
        ensures
            r == self.spec_u8(),
    {
        match self {
            InterruptIndex::Timer => PIC_1_OFFSET,
            InterruptIndex::Keyboard => PIC_1_OFFSET + 1,
        }
    }

    /// The vector number, for indexing a descriptor table.
    pub fn as_usize(self) -> (r: usize)
        ensures
            r == self.spec_u8(),
    {
        self.as_u8() as usize
    }
}

} // verus!
