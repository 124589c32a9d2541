//! Registers and register-to-register copies.

use vstd::prelude::*;

verus! {

/// A storage location, named by a number. Registers are ordered by that number.
#[derive(Debug, Clone, Copy, PartialEq, Eq, Hash, PartialOrd, Ord, Structural)]
pub struct Register(pub u32);

/// The instruction "copy the value currently in `source` into `destination`".
#[derive(Debug, Clone, Copy, PartialEq, Eq, Hash, PartialOrd, Ord, Structural)]
pub struct RegisterCopy {
    pub source: Register,
    pub destination: Register,
}

impl RegisterCopy {
    /// Whether this copy reads or writes `register`.
    pub open spec fn mentions(self, register: Register) -> bool {
        self.source == register || self.destination == register
    }

    /// Whether this copy reads or writes `register`.
    pub fn uses(&self, register: Register) -> (used: bool)
        ensures
            used == self.mentions(register),
    {
        self.source == register || self.destination == register
    }
}

} // verus!
