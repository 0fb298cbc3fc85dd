//! Chips: containers of gates plus the connection graph between
//! pins, with shell pins exposing the chip as a black box.

use vstd::prelude::*;
use crate::pin::{Pin, PinType};
use crate::gate::Gate;
use crate::ids::IdAlloc;
use crate::CircuitError;
use crate::view::{
    ChipV, chip_set_shell, chip_has_shell, set_first_pin, find_pin_ix, lemma_find_pin_ix,
    lemma_gates_view, gates_view, gate_view, chip_view, gv_id, wf_gate, wf_chip, is_driver, is_dest,
    input_ids, output_ids, drop_edges_into, wires_after_connect, lemma_drop_edges_into,
};

verus! {

/// One directed wiring edge: the pin `from` drives the pin `to`.
#[derive(Clone, Copy, PartialEq, Eq, Structural, Debug)]
pub struct Wire {
    pub from: usize,
    pub to: usize,
}

/// A container of gates plus a connection graph between pins. The
/// `input` and `output` vectors hold the chip's own boundary (shell)
/// pins, never owned by an internal gate; `connections` holds one
/// edge per driven pin.
#[derive(Debug)]
pub struct Chip {
    pub id: usize,
    pub gates: Vec<Gate>,
    pub connections: Vec<Wire>,
    pub input: Vec<Pin>,
    pub output: Vec<Pin>,
}

impl Chip {
    /// An empty chip under the given id: no gates, no wires, no
    /// shell pins.
    pub fn new(id: usize) -> (c: Chip)
        ensures
            c.id == id,
            c.gates@ =~= Seq::<Gate>::empty(),
            c.connections@ =~= Seq::<Wire>::empty(),
            c.input@ =~= Seq::<Pin>::empty(),
            c.output@ =~= Seq::<Pin>::empty(),
    {
        Chip {
            id,
            gates: Vec::new(),
            connections: Vec::new(),
            input: Vec::new(),
            output: Vec::new(),
        }
    }

    /// Registers a gate under its own id and returns that id. When
    /// the chip and gate are both well-formed and that gate's
    /// id not yet taken, the grown chip is well-formed again.
    pub fn add_gate(&mut self, gate: Gate) -> (r: usize)
        ensures
            final(self)@ == (ChipV { gates: old(self)@.gates.push(gate@), ..old(self)@ }),
            r == gv_id(gate@),
            (wf_chip(old(self)@) && wf_gate(gate@) && (forall|i: int|
                0 <= i < old(self)@.gates.len() ==> gv_id(#[trigger] old(self)@.gates[i])
                    != gv_id(gate@))) ==> wf_chip(final(self)@),
    {
        let id = gate.id();
        proof {
            let s = self.gates@;
            assert(s.push(gate).drop_last() =~= s);
            assert(s.push(gate).last() == gate);
            assert(gates_view(s.push(gate)) == gates_view(s).push(gate@));
            let oldv = self@;
            let newv = ChipV { gates: oldv.gates.push(gate@), ..oldv };
            if wf_chip(oldv) && wf_gate(gate@) && (forall|i: int|
                0 <= i < oldv.gates.len() ==> gv_id(#[trigger] oldv.gates[i]) != gv_id(gate@)) {
                assert forall|k: int|
                    0 <= k < newv.connections.len() implies is_driver(
                    newv,
                    (#[trigger] newv.connections[k]).from,
                ) && is_dest(newv, newv.connections[k].to) by {
                    assert(is_driver(oldv, oldv.connections[k].from));
                    assert(is_dest(oldv, oldv.connections[k].to));
                    lemma_driver_dest_prefix(oldv, newv, oldv.connections[k].from);
                    lemma_driver_dest_prefix(oldv, newv, oldv.connections[k].to);
                }
                assert(wf_chip(newv));
            }
        }
        self.gates.push(gate);
        id
    }

    /// Adds one boundary pin of the given role to the chip's shell:
    /// a fresh, undefined pin appended to the input or to the output
    /// list, whose id is returned.
    pub fn add_shell_pin(&mut self, alloc: &mut IdAlloc, kind: PinType) -> (r: usize)
        requires
            kind == PinType::ChipInput || kind == PinType::ChipOutput,
            old(alloc).spec_next() < usize::MAX,
        ensures
            r == old(alloc).spec_next(),
            final(alloc).spec_next() == old(alloc).spec_next() + 1,
            ({
                let p = Pin { id: old(alloc).spec_next(), kind, val: None };
                if kind == PinType::ChipInput {
                    final(self)@ == (ChipV { input: old(self)@.input.push(p), ..old(self)@ })
                } else {
                    final(self)@ == (ChipV { output: old(self)@.output.push(p), ..old(self)@ })
                }
            }),
            wf_chip(old(self)@) ==> wf_chip(final(self)@),
    {
        let pin = Pin::new(alloc, kind);
        let id = pin.id;
        proof {
            let oldv = self@;
            let p = Pin { id: old(alloc).spec_next(), kind, val: None };
            if wf_chip(oldv) {
                let newv = if kind == PinType::ChipInput {
                    ChipV { input: oldv.input.push(p), ..oldv }
                } else {
                    ChipV { output: oldv.output.push(p), ..oldv }
                };
                assert forall|k: int|
                    0 <= k < newv.connections.len() implies is_driver(
                    newv,
                    (#[trigger] newv.connections[k]).from,
                ) && is_dest(newv, newv.connections[k].to) by {
                    assert(is_driver(oldv, oldv.connections[k].from));
                    assert(is_dest(oldv, oldv.connections[k].to));
                    lemma_driver_dest_prefix(oldv, newv, oldv.connections[k].from);
                    lemma_driver_dest_prefix(oldv, newv, oldv.connections[k].to);
                }
                assert(wf_chip(newv));
            }
        }
        if matches!(kind, PinType::ChipInput) {
            self.input.push(pin);
        } else {
            self.output.push(pin);
        }
        id
    }

    /// Wires `from_pin` to `to_pin`. Every edge previously feeding
    /// `to_pin` is removed first, so a driven pin keeps exactly one
    /// driver: the most recent. Both endpoints must belong to the
    /// chip — `from_pin` as a driver (shell input or gate output),
    /// `to_pin` as a destination (shell output or gate input) — or
    /// the wiring is refused with [`CircuitError::UnknownPin`].
    pub fn connect_pins(&mut self, from_pin: usize, to_pin: usize) -> (r: Result<
        (),
        CircuitError,
    >)
        ensures
            if is_driver(old(self)@, from_pin) && is_dest(old(self)@, to_pin) {
                &&& r is Ok
                &&& final(self)@ == (ChipV {
                    connections: wires_after_connect(old(self)@.connections, from_pin, to_pin),
                    ..old(self)@
                })
            } else {
                &&& r == Err::<(), CircuitError>(CircuitError::UnknownPin)
                &&& *final(self) == *old(self)
            },
            wf_chip(old(self)@) ==> wf_chip(final(self)@),
    {
        let ok_from = self.is_driver_pin(from_pin);
        let ok_to = self.is_dest_pin(to_pin);
        if !(ok_from && ok_to) {
            return Err(CircuitError::UnknownPin);
        }
        let ghost oldv = self@;
        let n = self.connections.len();
        let mut kept: Vec<Wire> = Vec::new();
        let mut i: usize = 0;
        proof {
            assert(self.connections@.subrange(0, 0) =~= Seq::<Wire>::empty());
        }
        while i < n
            invariant
                i <= n,
                n == self.connections.len(),
                *self == *old(self),
                kept@ == drop_edges_into(self.connections@.subrange(0, i as int), to_pin),
            decreases n - i,
        {
            let w = self.connections[i];
            proof {
                let pre = self.connections@.subrange(0, i as int);
                let post = self.connections@.subrange(0, i as int + 1);
                assert(post.drop_last() =~= pre);
                assert(post.last() == w);
            }
            if w.to != to_pin {
                kept.push(w);
            }
            i = i + 1;
        }
        proof {
            assert(self.connections@.subrange(0, n as int) =~= self.connections@);
        }
        kept.push(Wire { from: from_pin, to: to_pin });
        self.connections = kept;
        proof {
            let newv = self@;
            let fs = drop_edges_into(oldv.connections, to_pin);
            lemma_drop_edges_into(oldv.connections, to_pin);
            if wf_chip(oldv) {
                assert forall|k: int|
                    0 <= k < newv.connections.len() implies is_driver(
                    newv,
                    (#[trigger] newv.connections[k]).from,
                ) && is_dest(newv, newv.connections[k].to) by {
                    if k < fs.len() {
                        assert(fs[k] == newv.connections[k]);
                        let k0 = choose|k0: int|
                            0 <= k0 < oldv.connections.len() && oldv.connections[k0] == fs[k];
                        assert(is_driver(oldv, (#[trigger] oldv.connections[k0]).from));
                        assert(is_dest(oldv, oldv.connections[k0].to));
                        lemma_driver_dest_prefix(oldv, newv, oldv.connections[k0].from);
                        lemma_driver_dest_prefix(oldv, newv, oldv.connections[k0].to);
                    } else {
                        assert(newv.connections[k] == Wire { from: from_pin, to: to_pin });
                        lemma_driver_dest_prefix(oldv, newv, from_pin);
                        lemma_driver_dest_prefix(oldv, newv, to_pin);
                    }
                }
                assert forall|k1: int, k2: int|
                    0 <= k1 < k2 < newv.connections.len() implies newv.connections[k1].to
                    != newv.connections[k2].to by {
                    if k2 < fs.len() {
                        assert(fs[k1].to != fs[k2].to);
                    } else {
                        assert(newv.connections[k2] == Wire { from: from_pin, to: to_pin });
                        assert(fs[k1] == newv.connections[k1]);
                    }
                }
                assert(wf_chip(newv));
            }
        }
        Ok(())
    }

    /// Writes the value of the shell pin with the given id — input
    /// pins are checked before output pins — and reports
    /// [`CircuitError::UnknownPin`] when no shell pin carries it.
    pub fn set_pin(&mut self, id: usize, val: Option<bool>) -> (r: Result<(), CircuitError>)
        ensures
            final(self)@ == chip_set_shell(old(self)@, id, val),
            r is Ok <==> chip_has_shell(old(self)@, id),
            r is Err ==> r == Err::<(), CircuitError>(CircuitError::UnknownPin),
            wf_chip(old(self)@) ==> wf_chip(final(self)@),
    {
        proof {
            lemma_find_pin_ix(self.input@, id);
            lemma_find_pin_ix(self.output@, id);
        }
        let n = self.input.len();
        let mut i: usize = 0;
        while i < n
            invariant
                i <= n,
                n == self.input.len(),
                *self == *old(self),
                forall|k: int| 0 <= k < i ==> self.input@[k].id != id,
            decreases n - i,
        {
            if self.input[i].id == id {
                proof {
                    lemma_find_pin_ix(self.input@, id);
                    assert(find_pin_ix(self.input@, id) == i as int);
                }
                let elem = &mut self.input[i];
                elem.val = val;
                proof {
                    let oldv = old(self)@;
                    assert(self.input@ =~= set_first_pin(oldv.input, id, val));
                    assert(self@ == chip_set_shell(oldv, id, val));
                    if wf_chip(oldv) {
                        lemma_wf_vals_only(oldv, self@);
                    }
                }
                return Ok(());
            }
            i = i + 1;
        }
        let m = self.output.len();
        let mut j: usize = 0;
        while j < m
            invariant
                j <= m,
                m == self.output.len(),
                *self == *old(self),
                forall|k: int| 0 <= k < j ==> self.output@[k].id != id,
                forall|k: int| 0 <= k < self.input@.len() ==> self.input@[k].id != id,
            decreases m - j,
        {
            if self.output[j].id == id {
                proof {
                    lemma_find_pin_ix(self.input@, id);
                    lemma_find_pin_ix(self.output@, id);
                    assert(find_pin_ix(self.input@, id) == -1);
                    assert(find_pin_ix(self.output@, id) == j as int);
                }
                let elem = &mut self.output[j];
                elem.val = val;
                proof {
                    let oldv = old(self)@;
                    assert(self.output@ =~= set_first_pin(oldv.output, id, val));
                    assert(self@ == chip_set_shell(oldv, id, val));
                    if wf_chip(oldv) {
                        lemma_wf_vals_only(oldv, self@);
                    }
                }
                return Ok(());
            }
            j = j + 1;
        }
        proof {
            lemma_find_pin_ix(self.input@, id);
            lemma_find_pin_ix(self.output@, id);
        }
        Err(CircuitError::UnknownPin)
    }

    /// Whether the given pin id can drive a wire of this chip.
    fn is_driver_pin(&self, p: usize) -> (r: bool)
        ensures
            r == is_driver(self@, p),
    {
        let n = self.input.len();
        let mut i: usize = 0;
        while i < n
            invariant
                i <= n,
                n == self.input.len(),
                forall|k: int| 0 <= k < i ==> self.input@[k].id != p,
            decreases n - i,
        {
            if self.input[i].id == p {
                return true;
            }
            i = i + 1;
        }
        proof {
            lemma_gates_view(self.gates@);
        }
        let m = self.gates.len();
        let mut j: usize = 0;
        while j < m
            invariant
                j <= m,
                m == self.gates.len(),
                forall|k: int| 0 <= k < self.input@.len() ==> self.input@[k].id != p,
                forall|k: int|
                    0 <= k < j ==> !(#[trigger] output_ids(self@.gates[k])).contains(p),
            decreases m - j,
        {
            proof {
                lemma_gates_view(self.gates@);
                assert(self@.gates[j as int] == gate_view(self.gates@[j as int]));
            }
            let outs = self.gates[j].output();
            if contains_id(&outs, p) {
                proof {
                    assert(output_ids(self@.gates[j as int]).contains(p));
                }
                return true;
            }
            proof {
                assert(!output_ids(self@.gates[j as int]).contains(p));
            }
            j = j + 1;
        }
        false
    }

    /// Whether the given pin id can be driven by a wire of this
    /// chip.
    fn is_dest_pin(&self, p: usize) -> (r: bool)
        ensures
            r == is_dest(self@, p),
    {
        let n = self.output.len();
        let mut i: usize = 0;
        while i < n
            invariant
                i <= n,
                n == self.output.len(),
                forall|k: int| 0 <= k < i ==> self.output@[k].id != p,
            decreases n - i,
        {
            if self.output[i].id == p {
                return true;
            }
            i = i + 1;
        }
        proof {
            lemma_gates_view(self.gates@);
        }
        let m = self.gates.len();
        let mut j: usize = 0;
        while j < m
            invariant
                j <= m,
                m == self.gates.len(),
                forall|k: int| 0 <= k < self.output@.len() ==> self.output@[k].id != p,
                forall|k: int| 0 <= k < j ==> !(#[trigger] input_ids(self@.gates[k])).contains(p),
            decreases m - j,
        {
            proof {
                lemma_gates_view(self.gates@);
                assert(self@.gates[j as int] == gate_view(self.gates@[j as int]));
            }
            let ins = self.gates[j].input();
            if contains_id(&ins, p) {
                proof {
                    assert(input_ids(self@.gates[j as int]).contains(p));
                }
                return true;
            }
            proof {
                assert(!input_ids(self@.gates[j as int]).contains(p));
            }
            j = j + 1;
        }
        false
    }
}

/// Whether the vector contains the given id.
pub fn contains_id(v: &Vec<usize>, x: usize) -> (r: bool)
    ensures
        r == v@.contains(x),
{
    let n = v.len();
    let mut i: usize = 0;
    while i < n
        invariant
            i <= n,
            n == v.len(),
            forall|k: int| 0 <= k < i ==> v@[k] != x,
        decreases n - i,
    {
        if v[i] == x {
            return true;
        }
        i = i + 1;
    }
    false
}

/// Growing a chip's shell or gate list only adds drivers and
/// destinations; it never invalidates an existing one.
proof fn lemma_driver_dest_prefix(c1: ChipV, c2: ChipV, p: usize)
    requires
        c1.input.is_prefix_of(c2.input),
        c1.output.is_prefix_of(c2.output),
        c1.gates.is_prefix_of(c2.gates),
    ensures
        is_driver(c1, p) ==> is_driver(c2, p),
        is_dest(c1, p) ==> is_dest(c2, p),
{
    if exists|j: int| 0 <= j < c1.input.len() && c1.input[j].id == p {
        let j = choose|j: int| 0 <= j < c1.input.len() && c1.input[j].id == p;
        assert(0 <= j < c2.input.len() && c2.input[j].id == p);
    }
    if exists|j: int| 0 <= j < c1.output.len() && c1.output[j].id == p {
        let j = choose|j: int| 0 <= j < c1.output.len() && c1.output[j].id == p;
        assert(0 <= j < c2.output.len() && c2.output[j].id == p);
    }
    if exists|i: int| 0 <= i < c1.gates.len() && (#[trigger] output_ids(c1.gates[i])).contains(p) {
        let i = choose|i: int|
            0 <= i < c1.gates.len() && (#[trigger] output_ids(c1.gates[i])).contains(p);
        assert(0 <= i < c2.gates.len() && output_ids(c2.gates[i]).contains(p));
    }
    if exists|i: int| 0 <= i < c1.gates.len() && (#[trigger] input_ids(c1.gates[i])).contains(p) {
        let i = choose|i: int|
            0 <= i < c1.gates.len() && (#[trigger] input_ids(c1.gates[i])).contains(p);
        assert(0 <= i < c2.gates.len() && input_ids(c2.gates[i]).contains(p));
    }
}


/// A chip differing from a well-formed one only in pin values is
/// well-formed: well-formedness never reads a value.
proof fn lemma_wf_vals_only(c1: ChipV, c2: ChipV)
    requires
        wf_chip(c1),
        c2.gates == c1.gates,
        c2.connections == c1.connections,
        c2.input.len() == c1.input.len(),
        c2.output.len() == c1.output.len(),
        forall|j: int|
            0 <= j < c1.input.len() ==> (#[trigger] c2.input[j]).id == c1.input[j].id
                && c2.input[j].kind == c1.input[j].kind,
        forall|j: int|
            0 <= j < c1.output.len() ==> (#[trigger] c2.output[j]).id == c1.output[j].id
                && c2.output[j].kind == c1.output[j].kind,
    ensures
        wf_chip(c2),
{
    assert forall|k: int|
        0 <= k < c2.connections.len() implies is_driver(
        c2,
        (#[trigger] c2.connections[k]).from,
    ) && is_dest(c2, c2.connections[k].to) by {
        assert(is_driver(c1, c1.connections[k].from));
        assert(is_dest(c1, c1.connections[k].to));
        if exists|j: int|
            0 <= j < c1.input.len() && (#[trigger] c1.input[j]).id == c1.connections[k].from {
            let j = choose|j: int|
                0 <= j < c1.input.len() && (#[trigger] c1.input[j]).id == c1.connections[k].from;
            assert(c2.input[j].id == c1.connections[k].from);
        }
        if exists|j: int|
            0 <= j < c1.output.len() && (#[trigger] c1.output[j]).id == c1.connections[k].to {
            let j = choose|j: int|
                0 <= j < c1.output.len() && (#[trigger] c1.output[j]).id == c1.connections[k].to;
            assert(c2.output[j].id == c1.connections[k].to);
        }
    }
}

} // verus!
