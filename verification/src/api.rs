use vstd::prelude::*;

verus! {

/// The coarse, user-facing life cycle of a coroutine.
#[derive(Debug, Clone, Copy, PartialEq, Eq, Structural)]
pub enum State {
    /// Freshly created.
    Created,
    /// Running now.
    Running,
    /// Suspended.
    Suspend,
    /// Exited.
    Exited,
}

/// An image of the callee-saved machine registers a context switch must
/// preserve.
#[derive(Debug, Clone, Copy)]
pub struct Register {
    registers: [usize; 32],
}

impl Register {
    pub closed spec fn spec_registers(self) -> Seq<usize> {
        self.registers@
    }

    /// A register image with every slot cleared.
    pub fn new() -> (r: Register)
        ensures
            r.spec_registers().len() == 32,
            forall|i: int| 0 <= i < 32 ==> r.spec_registers()[i] == 0,
    {
        Register { registers: [0; 32] }
    }
}

} // verus!
