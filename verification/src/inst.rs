//! The decoded instruction model: a closed set of two variants.

use vstd::prelude::*;

verus! {

/// One decoded instruction line.
#[derive(Debug, PartialEq, Eq)]
pub enum Inst {
    /// Load a 15-bit address into the address register.
    AInst { address: u16 },
    /// Compute an ALU expression, optionally store it and/or jump.
    CInst { comp: String, dest: Option<String>, jump: Option<String> },
}

} // verus!
