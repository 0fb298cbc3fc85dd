//! Pins: the smallest addressable signal points. A pin has an
//! identity, a role, and an optional boolean value that stays
//! undefined until a driver or an external write sets it.

use vstd::prelude::*;
use crate::ids::IdAlloc;

verus! {

/// The role a pin plays: an input or output of a leaf gate, or a
/// boundary (shell) input or output of a chip.
#[derive(Clone, Copy, PartialEq, Eq, Structural, Debug)]
pub enum PinType {
    GateInput,
    GateOutput,
    ChipInput,
    ChipOutput,
}

/// A single-bit signal point. `val` is `None` until something drives
/// the pin or writes it from outside.
#[derive(Clone, Copy, Debug)]
pub struct Pin {
    pub id: usize,
    pub kind: PinType,
    pub val: Option<bool>,
}

impl Pin {
    /// Makes a pin of the given role with a fresh identity and no
    /// value yet.
    pub fn new(alloc: &mut IdAlloc, kind: PinType) -> (p: Pin)
        requires
            old(alloc).spec_next() < usize::MAX,
        ensures
            p.id == old(alloc).spec_next(),
            p.kind == kind,
            p.val is None,
            final(alloc).spec_next() == old(alloc).spec_next() + 1,
    {
        let id = alloc.next_id();
        Pin { id, kind, val: None }
    }
}

} // verus!
