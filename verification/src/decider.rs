//! The decider interface: anything that classifies a whole machine.
//!
//! The enumeration uses the concrete procedure in [`crate::enumerate`]; this
//! trait is the seam for plugging in other deciders, which classify a
//! machine without being told which cell was filled last.

use vstd::prelude::*;

use crate::states::States;

verus! {

/// Classification of a machine by a decider that sees only the machine.
#[derive(Debug, Clone, Copy, PartialEq, Eq, Structural)]
pub enum Decision {
    /// The machine halts.
    Halt,
    /// The machine runs forever.
    RunForever,
    /// The machine is irrelevant for finding BB(5).
    Irrelevant,
    /// The machine could not be decided.
    Undecided,
}

/// A decision procedure over whole machines.
pub trait Decider {
    /// Classify the machine.
    fn decide(&mut self, states: &States) -> Decision;
}

} // verus!
