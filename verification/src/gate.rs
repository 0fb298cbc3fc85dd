//! Gates: the leaf computation units (AND, NOT, source, output sink)
//! and the `Chip` variant that lets a whole chip act as one gate.
//!
//! Each leaf gate owns a fixed set of pins. Evaluation is strict: a
//! gate whose required input pin carries no value fails with
//! [`CircuitError::UndefinedInput`] instead of assuming a default.

use vstd::prelude::*;
use crate::ids::IdAlloc;
use crate::pin::{Pin, PinType};
use crate::circuit::Chip;
use crate::CircuitError;
use crate::view::{
    GateV, gv_id, gv_has_pin, gv_set_pin, gv_pins, input_ids, output_ids, wf_gate, gate_ids_from,
    gate_ids_below, gate_type_cost, new_gate_spec,
};

verus! {

/// The kinds of gate that [`Gate::new`] can construct.
#[derive(Clone, Copy, PartialEq, Eq, Structural, Debug)]
pub enum GateType {
    And,
    Not,
    Source,
    Output,
    Chip,
}

/// Logical AND: two input pins, one output pin.
#[derive(Clone, Copy, Debug)]
pub struct AndGate {
    pub id: usize,
    pub a: Pin,
    pub b: Pin,
    pub out: Pin,
}

/// Logical NOT: one input pin, one output pin.
#[derive(Clone, Copy, Debug)]
pub struct NotGate {
    pub id: usize,
    pub a: Pin,
    pub out: Pin,
}

/// An externally writable signal source: no inputs, one output pin.
#[derive(Clone, Copy, Debug)]
pub struct SourceGate {
    pub id: usize,
    pub out: Pin,
}

/// A terminal sink surfacing a value to callers: one input pin, no
/// output pin.
#[derive(Clone, Copy, Debug)]
pub struct OutputGate {
    pub id: usize,
    pub a: Pin,
}

/// A polymorphic gate: one of the four leaf units, or a whole chip
/// used recursively as a gate.
#[derive(Debug)]
pub enum Gate {
    And(AndGate),
    Not(NotGate),
    Source(SourceGate),
    Output(OutputGate),
    Chip(Chip),
}

impl AndGate {
    /// Builds an AND gate under the given gate id, with two fresh
    /// input pins and a fresh output pin, all undefined.
    pub fn new(alloc: &mut IdAlloc, id: usize) -> (g: AndGate)
        requires
            old(alloc).spec_next() + 3 <= usize::MAX,
        ensures
            g.id == id,
            g.a.id == old(alloc).spec_next(),
            g.b.id == old(alloc).spec_next() + 1,
            g.out.id == old(alloc).spec_next() + 2,
            g.a.kind == PinType::GateInput,
            g.b.kind == PinType::GateInput,
            g.out.kind == PinType::GateOutput,
            g.a.val is None,
            g.b.val is None,
            g.out.val is None,
            final(alloc).spec_next() == old(alloc).spec_next() + 3,
    {
        let a = Pin::new(alloc, PinType::GateInput);
        let b = Pin::new(alloc, PinType::GateInput);
        let out = Pin::new(alloc, PinType::GateOutput);
        AndGate { id, a, b, out }
    }

    /// Strict logical AND of the two input pin values, written into
    /// the output pin; fails if either input is undefined.
    pub fn evaluate(&mut self) -> (r: Result<bool, CircuitError>)
        ensures
            match (old(self).a.val, old(self).b.val) {
                (Some(x), Some(y)) => {
                    &&& r == Ok::<bool, CircuitError>(x && y)
                    &&& *final(self) == (AndGate {
                        out: Pin { val: Some(x && y), ..old(self).out },
                        ..*old(self)
                    })
                },
                _ => {
                    &&& r == Err::<bool, CircuitError>(CircuitError::UndefinedInput)
                    &&& *final(self) == *old(self)
                },
            },
    {
        match (self.a.val, self.b.val) {
            (Some(x), Some(y)) => {
                let v = x && y;
                self.out.val = Some(v);
                Ok(v)
            },
            _ => Err(CircuitError::UndefinedInput),
        }
    }

    /// Writes the value of the owned pin with the given id; the first
    /// match among input pins then output pin is written.
    pub fn set_pin(&mut self, id: usize, val: Option<bool>) -> (r: Result<(), CircuitError>)
        ensures
            if id == old(self).a.id {
                &&& r is Ok
                &&& *final(self) == (AndGate { a: Pin { val, ..old(self).a }, ..*old(self) })
            } else if id == old(self).b.id {
                &&& r is Ok
                &&& *final(self) == (AndGate { b: Pin { val, ..old(self).b }, ..*old(self) })
            } else if id == old(self).out.id {
                &&& r is Ok
                &&& *final(self) == (AndGate { out: Pin { val, ..old(self).out }, ..*old(self) })
            } else {
                &&& r == Err::<(), CircuitError>(CircuitError::UnknownPin)
                &&& *final(self) == *old(self)
            },
    {
        if id == self.a.id {
            self.a.val = val;
            Ok(())
        } else if id == self.b.id {
            self.b.val = val;
            Ok(())
        } else if id == self.out.id {
            self.out.val = val;
            Ok(())
        } else {
            Err(CircuitError::UnknownPin)
        }
    }
}

impl NotGate {
    /// Builds a NOT gate under the given gate id, with a fresh input
    /// pin and a fresh output pin, both undefined.
    pub fn new(alloc: &mut IdAlloc, id: usize) -> (g: NotGate)
        requires
            old(alloc).spec_next() + 2 <= usize::MAX,
        ensures
            g.id == id,
            g.a.id == old(alloc).spec_next(),
            g.out.id == old(alloc).spec_next() + 1,
            g.a.kind == PinType::GateInput,
            g.out.kind == PinType::GateOutput,
            g.a.val is None,
            g.out.val is None,
            final(alloc).spec_next() == old(alloc).spec_next() + 2,
    {
        let a = Pin::new(alloc, PinType::GateInput);
        let out = Pin::new(alloc, PinType::GateOutput);
        NotGate { id, a, out }
    }

    /// Strict logical complement of the input pin value, written into
    /// the output pin; fails if the input is undefined.
    pub fn evaluate(&mut self) -> (r: Result<bool, CircuitError>)
        ensures
            match old(self).a.val {
                Some(x) => {
                    &&& r == Ok::<bool, CircuitError>(!x)
                    &&& *final(self) == (NotGate {
                        out: Pin { val: Some(!x), ..old(self).out },
                        ..*old(self)
                    })
                },
                None => {
                    &&& r == Err::<bool, CircuitError>(CircuitError::UndefinedInput)
                    &&& *final(self) == *old(self)
                },
            },
    {
        match self.a.val {
            Some(x) => {
                let v = !x;
                self.out.val = Some(v);
                Ok(v)
            },
            None => Err(CircuitError::UndefinedInput),
        }
    }

    /// Writes the value of the owned pin with the given id; the input
    /// pin is checked first.
    pub fn set_pin(&mut self, id: usize, val: Option<bool>) -> (r: Result<(), CircuitError>)
        ensures
            if id == old(self).a.id {
                &&& r is Ok
                &&& *final(self) == (NotGate { a: Pin { val, ..old(self).a }, ..*old(self) })
            } else if id == old(self).out.id {
                &&& r is Ok
                &&& *final(self) == (NotGate { out: Pin { val, ..old(self).out }, ..*old(self) })
            } else {
                &&& r == Err::<(), CircuitError>(CircuitError::UnknownPin)
                &&& *final(self) == *old(self)
            },
    {
        if id == self.a.id {
            self.a.val = val;
            Ok(())
        } else if id == self.out.id {
            self.out.val = val;
            Ok(())
        } else {
            Err(CircuitError::UnknownPin)
        }
    }
}

impl SourceGate {
    /// Builds a source gate under the given gate id, with one fresh,
    /// externally writable output pin, initially undefined.
    pub fn new(alloc: &mut IdAlloc, id: usize) -> (g: SourceGate)
        requires
            old(alloc).spec_next() < usize::MAX,
        ensures
            g.id == id,
            g.out.id == old(alloc).spec_next(),
            g.out.kind == PinType::GateOutput,
            g.out.val is None,
            final(alloc).spec_next() == old(alloc).spec_next() + 1,
    {
        let out = Pin::new(alloc, PinType::GateOutput);
        SourceGate { id, out }
    }

    /// Evaluation of a source is a no-op: it returns the current
    /// output value, or `false` while the output is still undefined.
    pub fn evaluate(&self) -> (r: bool)
        ensures
            r == (self.out.val == Some(true)),
    {
        match self.out.val {
            Some(v) => v,
            None => false,
        }
    }

    /// Writes the value of the output pin, the external write that
    /// drives a circuit's free inputs.
    pub fn set_pin(&mut self, id: usize, val: Option<bool>) -> (r: Result<(), CircuitError>)
        ensures
            if id == old(self).out.id {
                &&& r is Ok
                &&& *final(self) == (SourceGate { out: Pin { val, ..old(self).out }, ..*old(self) })
            } else {
                &&& r == Err::<(), CircuitError>(CircuitError::UnknownPin)
                &&& *final(self) == *old(self)
            },
    {
        if id == self.out.id {
            self.out.val = val;
            Ok(())
        } else {
            Err(CircuitError::UnknownPin)
        }
    }
}

impl OutputGate {
    /// Builds an output sink under the given gate id, with one fresh
    /// input pin, initially undefined.
    pub fn new(alloc: &mut IdAlloc, id: usize) -> (g: OutputGate)
        requires
            old(alloc).spec_next() < usize::MAX,
        ensures
            g.id == id,
            g.a.id == old(alloc).spec_next(),
            g.a.kind == PinType::GateInput,
            g.a.val is None,
            final(alloc).spec_next() == old(alloc).spec_next() + 1,
    {
        let a = Pin::new(alloc, PinType::GateInput);
        OutputGate { id, a }
    }

    /// Reads the terminal value: the current input pin value, failing
    /// if it is undefined.
    pub fn evaluate(&self) -> (r: Result<bool, CircuitError>)
        ensures
            match self.a.val {
                Some(x) => r == Ok::<bool, CircuitError>(x),
                None => r == Err::<bool, CircuitError>(CircuitError::UndefinedInput),
            },
    {
        match self.a.val {
            Some(x) => Ok(x),
            None => Err(CircuitError::UndefinedInput),
        }
    }

    /// Writes the value of the input pin.
    pub fn set_pin(&mut self, id: usize, val: Option<bool>) -> (r: Result<(), CircuitError>)
        ensures
            if id == old(self).a.id {
                &&& r is Ok
                &&& *final(self) == (OutputGate { a: Pin { val, ..old(self).a }, ..*old(self) })
            } else {
                &&& r == Err::<(), CircuitError>(CircuitError::UnknownPin)
                &&& *final(self) == *old(self)
            },
    {
        if id == self.a.id {
            self.a.val = val;
            Ok(())
        } else {
            Err(CircuitError::UnknownPin)
        }
    }
}

impl Gate {
    /// Builds a gate of the given kind with a fresh gate id and
    /// fresh, undefined pins; for [`GateType::Chip`], an empty chip.
    /// Its shape is exactly `new_gate_spec` of the kind at the
    /// allocator's position.
    pub fn new(alloc: &mut IdAlloc, gate_type: GateType) -> (g: Gate)
        requires
            old(alloc).spec_next() + 4 <= usize::MAX,
        ensures
            g@ == new_gate_spec(gate_type, old(alloc).spec_next()),
            gv_id(g@) == old(alloc).spec_next(),
            wf_gate(g@),
            gate_ids_from(g@, old(alloc).spec_next()),
            gate_ids_below(g@, final(alloc).spec_next()),
            final(alloc).spec_next() == old(alloc).spec_next() + gate_type_cost(gate_type),
    {
        let id = alloc.next_id();
        match gate_type {
            GateType::And => Gate::And(AndGate::new(alloc, id)),
            GateType::Not => Gate::Not(NotGate::new(alloc, id)),
            GateType::Source => Gate::Source(SourceGate::new(alloc, id)),
            GateType::Output => Gate::Output(OutputGate::new(alloc, id)),
            GateType::Chip => Gate::Chip(Chip::new(id)),
        }
    }

    /// The identity of this gate: for an embedded chip, the chip's
    /// id.
    pub fn id(&self) -> (r: usize)
        ensures
            r == gv_id(self@),
    {
        match self {
            Gate::And(x) => x.id,
            Gate::Not(x) => x.id,
            Gate::Source(x) => x.id,
            Gate::Output(x) => x.id,
            Gate::Chip(c) => c.id,
        }
    }

    /// The ids of the pins this gate reads as inputs.
    pub fn input(&self) -> (r: Vec<usize>)
        ensures
            r@ == input_ids(self@),
    {
        let mut r: Vec<usize> = Vec::new();
        match self {
            Gate::And(x) => {
                r.push(x.a.id);
                r.push(x.b.id);
            },
            Gate::Not(x) => {
                r.push(x.a.id);
            },
            Gate::Source(_) => {},
            Gate::Output(x) => {
                r.push(x.a.id);
            },
            Gate::Chip(c) => {
                let n = c.input.len();
                let mut i: usize = 0;
                while i < n
                    invariant
                        i <= n,
                        n == c.input.len(),
                        r@.len() == i as int,
                        forall|k: int| 0 <= k < i ==> r@[k] == c.input@[k].id,
                    decreases n - i,
                {
                    r.push(c.input[i].id);
                    i = i + 1;
                }
            },
        }
        proof {
            assert(r@ =~= input_ids(self@));
        }
        r
    }

    /// The ids of the pins this gate drives as outputs.
    pub fn output(&self) -> (r: Vec<usize>)
        ensures
            r@ == output_ids(self@),
    {
        let mut r: Vec<usize> = Vec::new();
        match self {
            Gate::And(x) => {
                r.push(x.out.id);
            },
            Gate::Not(x) => {
                r.push(x.out.id);
            },
            Gate::Source(x) => {
                r.push(x.out.id);
            },
            Gate::Output(_) => {},
            Gate::Chip(c) => {
                let n = c.output.len();
                let mut i: usize = 0;
                while i < n
                    invariant
                        i <= n,
                        n == c.output.len(),
                        r@.len() == i as int,
                        forall|k: int| 0 <= k < i ==> r@[k] == c.output@[k].id,
                    decreases n - i,
                {
                    r.push(c.output[i].id);
                    i = i + 1;
                }
            },
        }
        proof {
            assert(r@ =~= output_ids(self@));
        }
        r
    }

    /// All pins this gate owns at shell level, inputs first: for an
    /// embedded chip, its shell pins.
    pub fn pins(&self) -> (r: Vec<Pin>)
        ensures
            r@ == gv_pins(self@),
    {
        let mut r: Vec<Pin> = Vec::new();
        match self {
            Gate::And(x) => {
                r.push(x.a);
                r.push(x.b);
                r.push(x.out);
            },
            Gate::Not(x) => {
                r.push(x.a);
                r.push(x.out);
            },
            Gate::Source(x) => {
                r.push(x.out);
            },
            Gate::Output(x) => {
                r.push(x.a);
            },
            Gate::Chip(c) => {
                let n = c.input.len();
                let mut i: usize = 0;
                while i < n
                    invariant
                        i <= n,
                        n == c.input.len(),
                        r@.len() == i as int,
                        forall|k: int| 0 <= k < i ==> r@[k] == c.input@[k],
                    decreases n - i,
                {
                    r.push(c.input[i]);
                    i = i + 1;
                }
                let m = c.output.len();
                let mut j: usize = 0;
                while j < m
                    invariant
                        j <= m,
                        m == c.output.len(),
                        n == c.input.len(),
                        r@.len() == n as int + j as int,
                        forall|k: int| 0 <= k < n ==> r@[k] == c.input@[k],
                        forall|k: int| 0 <= k < j ==> r@[n as int + k] == c.output@[k],
                    decreases m - j,
                {
                    r.push(c.output[j]);
                    j = j + 1;
                }
            },
        }
        proof {
            assert(r@ =~= gv_pins(self@));
        }
        r
    }

    /// Writes the value of the shell-level pin with the given id, if
    /// this gate owns one, and reports [`CircuitError::UnknownPin`]
    /// otherwise.
    pub fn set_pin(&mut self, id: usize, val: Option<bool>) -> (r: Result<(), CircuitError>)
        ensures
            final(self)@ == gv_set_pin(old(self)@, id, val),
            r is Ok <==> gv_has_pin(old(self)@, id),
            r is Err ==> r == Err::<(), CircuitError>(CircuitError::UnknownPin),
    {
        match self {
            Gate::And(x) => x.set_pin(id, val),
            Gate::Not(x) => x.set_pin(id, val),
            Gate::Source(x) => x.set_pin(id, val),
            Gate::Output(x) => x.set_pin(id, val),
            Gate::Chip(c) => c.set_pin(id, val),
        }
    }
}

} // verus!
