//! A digital logic circuit engine: boolean gates wired into chips,
//! evaluated to steady-state pin values in dependency order.
//!
//! Circuits are graphs of [`gate::Gate`]s held by a [`circuit::Chip`].
//! Every pin, gate and chip carries an identity drawn from an
//! [`ids::IdAlloc`], so identities never collide, even across deep
//! copies. Simulation orders the gates of a chip by the dependency
//! graph that the wiring induces, rejects cyclic circuits, and fails
//! rather than guess when a required input carries no value.

use vstd::prelude::*;

pub mod ids;
pub mod pin;
pub mod gate;
pub mod circuit;
pub mod view;
pub mod sim;
pub mod shape;
pub mod copy;
pub mod laws;

verus! {

/// The structural errors a circuit operation can report. They abort
/// the operation for that chip; none of them is transient.
#[derive(Clone, Copy, PartialEq, Eq, Structural, Debug)]
pub enum CircuitError {
    /// A pin id was looked up in an owner that does not hold it.
    UnknownPin,
    /// A gate id was looked up in a chip that does not hold it.
    UnknownGate,
    /// A gate was evaluated while a required input pin had no value.
    UndefinedInput,
    /// A simulated chip's gate-level dependency graph has a cycle.
    CyclicCircuit,
}

} // verus!
