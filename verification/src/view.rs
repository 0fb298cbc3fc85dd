//! The mathematical model of circuits. Every executable structure is
//! mirrored by a ghost value — [`ChipV`] for chips, [`GateV`] for
//! gates — and all contracts of the engine are stated over these.

use vstd::prelude::*;
use crate::pin::{Pin, PinType};
use crate::gate::{Gate, AndGate, NotGate, SourceGate, OutputGate};
use crate::circuit::{Chip, Wire};

verus! {

/// The model of a gate: a leaf gate as it stands, or the model of an
/// embedded chip.
#[verifier::ext_equal]
pub ghost enum GateV {
    And(AndGate),
    Not(NotGate),
    Source(SourceGate),
    Output(OutputGate),
    Chip(ChipV),
}

/// The model of a chip: the same fields as [`Chip`], with sequences
/// for vectors and gate models for gates.
#[verifier::ext_equal]
pub ghost struct ChipV {
    pub id: usize,
    pub gates: Seq<GateV>,
    pub connections: Seq<Wire>,
    pub input: Seq<Pin>,
    pub output: Seq<Pin>,
}

/// The model of a gate value.
pub open spec fn gate_view(g: Gate) -> GateV
    decreases g,
{
    match g {
        Gate::And(x) => GateV::And(x),
        Gate::Not(x) => GateV::Not(x),
        Gate::Source(x) => GateV::Source(x),
        Gate::Output(x) => GateV::Output(x),
        Gate::Chip(c) => GateV::Chip(chip_view(c)),
    }
}

/// The models of a sequence of gates, element by element.
pub open spec fn gates_view(s: Seq<Gate>) -> Seq<GateV>
    decreases s,
{
    if s.len() == 0 {
        Seq::empty()
    } else {
        gates_view(s.drop_last()).push(gate_view(s.last()))
    }
}

/// The model of a chip value.
pub open spec fn chip_view(c: Chip) -> ChipV
    decreases c,
{
    ChipV {
        id: c.id,
        gates: gates_view(c.gates@),
        connections: c.connections@,
        input: c.input@,
        output: c.output@,
    }
}

impl View for Gate {
    type V = GateV;

    open spec fn view(&self) -> GateV {
        gate_view(*self)
    }
}

impl View for Chip {
    type V = ChipV;

    open spec fn view(&self) -> ChipV {
        chip_view(*self)
    }
}

/// `gates_view` maps `gate_view` over the sequence: same length,
/// same elements.
pub broadcast proof fn lemma_gates_view(s: Seq<Gate>)
    ensures
        (#[trigger] gates_view(s)).len() == s.len(),
        forall|i: int| 0 <= i < s.len() ==> gates_view(s)[i] == gate_view(s[i]),
    decreases s.len(),
{
    if s.len() > 0 {
        lemma_gates_view(s.drop_last());
    }
}

/// `gates_view` commutes with replacing one element.
pub proof fn lemma_gates_view_update(s: Seq<Gate>, i: int, g: Gate)
    requires
        0 <= i < s.len(),
    ensures
        gates_view(s.update(i, g)) == gates_view(s).update(i, gate_view(g)),
    decreases s.len(),
{
    lemma_gates_view(s);
    let t = s.update(i, g);
    lemma_gates_view(t);
    assert(gates_view(t) =~= gates_view(s).update(i, gate_view(g)));
}

/// The nesting depth of a gate: 1 for a leaf, one more than the
/// depth of its gates for an embedded chip.
pub open spec fn gate_depth(g: GateV) -> nat
    decreases g,
{
    match g {
        GateV::Chip(c) => 1 + gates_depth(c.gates),
        _ => 1,
    }
}

/// The largest nesting depth among a sequence of gates.
pub open spec fn gates_depth(s: Seq<GateV>) -> nat
    decreases s,
{
    if s.len() == 0 {
        0
    } else if gate_depth(s.last()) >= gates_depth(s.drop_last()) {
        gate_depth(s.last())
    } else {
        gates_depth(s.drop_last())
    }
}

/// Every element's depth is bounded by the sequence's depth.
pub broadcast proof fn lemma_gates_depth_le(s: Seq<GateV>, i: int)
    requires
        0 <= i < s.len(),
    ensures
        #[trigger] gate_depth(s[i]) <= gates_depth(s),
    decreases s.len(),
{
    if i < s.len() - 1 {
        lemma_gates_depth_le(s.drop_last(), i);
    }
}

/// The pin ids a gate reads as inputs: for an embedded chip, its
/// shell input pins.
pub open spec fn input_ids(g: GateV) -> Seq<usize> {
    match g {
        GateV::And(x) => seq![x.a.id, x.b.id],
        GateV::Not(x) => seq![x.a.id],
        GateV::Source(_) => Seq::empty(),
        GateV::Output(x) => seq![x.a.id],
        GateV::Chip(c) => c.input.map_values(|p: Pin| p.id),
    }
}

/// The pin ids a gate drives as outputs: for an embedded chip, its
/// shell output pins.
pub open spec fn output_ids(g: GateV) -> Seq<usize> {
    match g {
        GateV::And(x) => seq![x.out.id],
        GateV::Not(x) => seq![x.out.id],
        GateV::Source(x) => seq![x.out.id],
        GateV::Output(_) => Seq::empty(),
        GateV::Chip(c) => c.output.map_values(|p: Pin| p.id),
    }
}

/// The identity of a gate: for an embedded chip, the chip's id.
pub open spec fn gv_id(g: GateV) -> usize {
    match g {
        GateV::And(x) => x.id,
        GateV::Not(x) => x.id,
        GateV::Source(x) => x.id,
        GateV::Output(x) => x.id,
        GateV::Chip(c) => c.id,
    }
}

/// The index of the first pin with the given id, or -1 if none
/// carries it.
pub open spec fn find_pin_ix(s: Seq<Pin>, pid: usize) -> int
    decreases s.len(),
{
    if s.len() == 0 {
        -1
    } else if s[0].id == pid {
        0
    } else {
        let r = find_pin_ix(s.subrange(1, s.len() as int), pid);
        if r == -1 {
            -1
        } else {
            r + 1
        }
    }
}

/// What `find_pin_ix` returns: -1 exactly when no pin carries the
/// id, else the first index that does.
pub proof fn lemma_find_pin_ix(s: Seq<Pin>, pid: usize)
    ensures
        find_pin_ix(s, pid) == -1 <==> (forall|j: int| 0 <= j < s.len() ==> s[j].id != pid),
        find_pin_ix(s, pid) != -1 ==> {
            let r = find_pin_ix(s, pid);
            &&& 0 <= r < s.len()
            &&& s[r].id == pid
            &&& forall|j: int| 0 <= j < r ==> s[j].id != pid
        },
    decreases s.len(),
{
    if s.len() > 0 && s[0].id != pid {
        let t = s.subrange(1, s.len() as int);
        lemma_find_pin_ix(t, pid);
        assert(forall|j: int| 0 <= j < t.len() ==> t[j] == s[j + 1]);
        let rt = find_pin_ix(t, pid);
        if rt == -1 {
            assert forall|j: int| 0 <= j < s.len() implies s[j].id != pid by {
                if j > 0 {
                    assert(s[j] == t[j - 1]);
                }
            }
        } else {
            assert(s[rt + 1] == t[rt]);
            assert forall|j: int| 0 <= j < rt + 1 implies s[j].id != pid by {
                if j > 0 {
                    assert(s[j] == t[j - 1]);
                }
            }
        }
    }
}

/// The sequence with the value of the first pin carrying the given
/// id replaced; unchanged if no pin carries it.
pub open spec fn set_first_pin(s: Seq<Pin>, pid: usize, val: Option<bool>) -> Seq<Pin> {
    let i = find_pin_ix(s, pid);
    if i == -1 {
        s
    } else {
        s.update(i, Pin { val, ..s[i] })
    }
}

/// Whether a gate owns a shell-level pin with the given id.
pub open spec fn gv_has_pin(g: GateV, pid: usize) -> bool {
    match g {
        GateV::And(x) => pid == x.a.id || pid == x.b.id || pid == x.out.id,
        GateV::Not(x) => pid == x.a.id || pid == x.out.id,
        GateV::Source(x) => pid == x.out.id,
        GateV::Output(x) => pid == x.a.id,
        GateV::Chip(c) => find_pin_ix(c.input, pid) != -1 || find_pin_ix(c.output, pid) != -1,
    }
}

/// The value of a gate's shell-level pin with the given id, if it
/// owns one; input pins are looked up before output pins.
pub open spec fn gv_get_pin(g: GateV, pid: usize) -> Option<Option<bool>> {
    match g {
        GateV::And(x) => if pid == x.a.id {
            Some(x.a.val)
        } else if pid == x.b.id {
            Some(x.b.val)
        } else if pid == x.out.id {
            Some(x.out.val)
        } else {
            None
        },
        GateV::Not(x) => if pid == x.a.id {
            Some(x.a.val)
        } else if pid == x.out.id {
            Some(x.out.val)
        } else {
            None
        },
        GateV::Source(x) => if pid == x.out.id {
            Some(x.out.val)
        } else {
            None
        },
        GateV::Output(x) => if pid == x.a.id {
            Some(x.a.val)
        } else {
            None
        },
        GateV::Chip(c) => {
            let i = find_pin_ix(c.input, pid);
            let o = find_pin_ix(c.output, pid);
            if i != -1 {
                Some(c.input[i].val)
            } else if o != -1 {
                Some(c.output[o].val)
            } else {
                None
            }
        },
    }
}

/// A gate with the value of its shell-level pin with the given id
/// replaced; unchanged if it owns no such pin. For a leaf gate the
/// first match in the order inputs-then-output is written; for an
/// embedded chip the shell input pins are checked before the shell
/// output pins.
pub open spec fn gv_set_pin(g: GateV, pid: usize, val: Option<bool>) -> GateV {
    match g {
        GateV::And(x) => GateV::And(
            if pid == x.a.id {
                AndGate { a: Pin { val, ..x.a }, ..x }
            } else if pid == x.b.id {
                AndGate { b: Pin { val, ..x.b }, ..x }
            } else if pid == x.out.id {
                AndGate { out: Pin { val, ..x.out }, ..x }
            } else {
                x
            },
        ),
        GateV::Not(x) => GateV::Not(
            if pid == x.a.id {
                NotGate { a: Pin { val, ..x.a }, ..x }
            } else if pid == x.out.id {
                NotGate { out: Pin { val, ..x.out }, ..x }
            } else {
                x
            },
        ),
        GateV::Source(x) => GateV::Source(
            if pid == x.out.id {
                SourceGate { out: Pin { val, ..x.out }, ..x }
            } else {
                x
            },
        ),
        GateV::Output(x) => GateV::Output(
            if pid == x.a.id {
                OutputGate { a: Pin { val, ..x.a }, ..x }
            } else {
                x
            },
        ),
        GateV::Chip(c) => GateV::Chip(chip_set_shell(c, pid, val)),
    }
}

/// The chip with the value of its first matching shell pin replaced:
/// shell inputs are checked before shell outputs.
pub open spec fn chip_set_shell(c: ChipV, pid: usize, val: Option<bool>) -> ChipV {
    if find_pin_ix(c.input, pid) != -1 {
        ChipV { input: set_first_pin(c.input, pid, val), ..c }
    } else if find_pin_ix(c.output, pid) != -1 {
        ChipV { output: set_first_pin(c.output, pid, val), ..c }
    } else {
        c
    }
}

/// The wiring with every edge into `to_pin` removed, order kept.
pub open spec fn drop_edges_into(s: Seq<Wire>, to_pin: usize) -> Seq<Wire>
    decreases s.len(),
{
    if s.len() == 0 {
        Seq::empty()
    } else {
        let rest = drop_edges_into(s.drop_last(), to_pin);
        if s.last().to == to_pin {
            rest
        } else {
            rest.push(s.last())
        }
    }
}

/// The wiring after connecting `from_pin` to `to_pin`: every edge
/// previously feeding `to_pin` is removed, then the new edge is
/// appended.
pub open spec fn wires_after_connect(s: Seq<Wire>, from_pin: usize, to_pin: usize) -> Seq<Wire> {
    drop_edges_into(s, to_pin).push(Wire { from: from_pin, to: to_pin })
}

/// What `drop_edges_into` keeps: wires of the original, none into
/// `to_pin`, pairwise-distinct destinations preserved.
pub proof fn lemma_drop_edges_into(s: Seq<Wire>, to_pin: usize)
    ensures
        forall|k: int|
            0 <= k < drop_edges_into(s, to_pin).len() ==> (#[trigger] drop_edges_into(
                s,
                to_pin,
            )[k]).to != to_pin,
        forall|k: int|
            0 <= k < drop_edges_into(s, to_pin).len() ==> exists|j: int|
                0 <= j < s.len() && s[j] == (#[trigger] drop_edges_into(s, to_pin)[k]),
        (forall|i: int, j: int| 0 <= i < j < s.len() ==> s[i].to != s[j].to) ==> (forall|
            i: int,
            j: int,
        |
            0 <= i < j < drop_edges_into(s, to_pin).len() ==> drop_edges_into(s, to_pin)[i].to
                != drop_edges_into(s, to_pin)[j].to),
    decreases s.len(),
{
    if s.len() > 0 {
        let t = s.drop_last();
        lemma_drop_edges_into(t, to_pin);
        let rest = drop_edges_into(t, to_pin);
        let out = drop_edges_into(s, to_pin);
        assert(forall|j: int| 0 <= j < t.len() ==> t[j] == s[j]);
        assert forall|k: int| 0 <= k < out.len() implies exists|j: int|
            0 <= j < s.len() && s[j] == (#[trigger] out[k]) by {
            if k < rest.len() {
                let j = choose|j: int| 0 <= j < t.len() && t[j] == rest[k];
                assert(s[j] == out[k]);
            } else {
                assert(out[k] == s.last());
                assert(s[s.len() - 1] == out[k]);
            }
        }
        if forall|i: int, j: int| 0 <= i < j < s.len() ==> s[i].to != s[j].to {
            assert(forall|i: int, j: int| 0 <= i < j < t.len() ==> t[i].to != t[j].to);
            assert forall|i: int, j: int| 0 <= i < j < out.len() implies out[i].to != out[j].to by {
                if j < rest.len() {
                    assert(rest[i].to != rest[j].to);
                } else {
                    assert(out[j] == s.last());
                    let ji = choose|x: int| 0 <= x < t.len() && t[x] == rest[i];
                    assert(s[ji].to != s[s.len() - 1].to);
                }
            }
        }
    }
}

/// Whether the chip owns a shell pin with the given id.
pub open spec fn chip_has_shell(c: ChipV, pid: usize) -> bool {
    find_pin_ix(c.input, pid) != -1 || find_pin_ix(c.output, pid) != -1
}

/// All pins a gate owns at shell level, inputs first: for an
/// embedded chip, its shell pins.
pub open spec fn gv_pins(g: GateV) -> Seq<Pin> {
    match g {
        GateV::And(x) => seq![x.a, x.b, x.out],
        GateV::Not(x) => seq![x.a, x.out],
        GateV::Source(x) => seq![x.out],
        GateV::Output(x) => seq![x.a],
        GateV::Chip(c) => c.input + c.output,
    }
}

/// Whether a pin id can drive a wire of this chip: a shell input
/// pin, or an output pin of one of its gates.
pub open spec fn is_driver(c: ChipV, p: usize) -> bool {
    (exists|j: int| 0 <= j < c.input.len() && c.input[j].id == p) || (exists|i: int|
        0 <= i < c.gates.len() && (#[trigger] output_ids(c.gates[i])).contains(p))
}

/// Whether a pin id can be driven by a wire of this chip: a shell
/// output pin, or an input pin of one of its gates.
pub open spec fn is_dest(c: ChipV, p: usize) -> bool {
    (exists|j: int| 0 <= j < c.output.len() && c.output[j].id == p) || (exists|i: int|
        0 <= i < c.gates.len() && (#[trigger] input_ids(c.gates[i])).contains(p))
}

/// Well-formedness of a gate: pin roles fit the variant, a gate's
/// own pins are distinct, and an embedded chip is well-formed.
pub open spec fn wf_gate(g: GateV) -> bool
    decreases g,
{
    match g {
        GateV::And(x) => {
            &&& x.a.kind == PinType::GateInput
            &&& x.b.kind == PinType::GateInput
            &&& x.out.kind == PinType::GateOutput
            &&& x.a.id != x.b.id
            &&& x.a.id != x.out.id
            &&& x.b.id != x.out.id
        },
        GateV::Not(x) => {
            &&& x.a.kind == PinType::GateInput
            &&& x.out.kind == PinType::GateOutput
            &&& x.a.id != x.out.id
        },
        GateV::Source(x) => x.out.kind == PinType::GateOutput,
        GateV::Output(x) => x.a.kind == PinType::GateInput,
        GateV::Chip(c) => wf_chip(c),
    }
}

/// Well-formedness of a chip: every gate is well-formed, gate ids
/// are distinct, shell pins carry the matching roles, every wire
/// runs from a driver pin to a destination pin, and no destination
/// pin is driven by more than one wire.
pub open spec fn wf_chip(c: ChipV) -> bool
    decreases c,
{
    &&& forall|i: int| 0 <= i < c.gates.len() ==> wf_gate(#[trigger] c.gates[i])
    &&& forall|i: int, j: int|
        0 <= i < j < c.gates.len() ==> gv_id(c.gates[i]) != gv_id(c.gates[j])
    &&& forall|j: int| 0 <= j < c.input.len() ==> (#[trigger] c.input[j]).kind == PinType::ChipInput
    &&& forall|j: int|
        0 <= j < c.output.len() ==> (#[trigger] c.output[j]).kind == PinType::ChipOutput
    &&& forall|k: int|
        0 <= k < c.connections.len() ==> is_driver(c, (#[trigger] c.connections[k]).from) && is_dest(
            c,
            c.connections[k].to,
        )
    &&& forall|k1: int, k2: int|
        0 <= k1 < k2 < c.connections.len() ==> c.connections[k1].to != c.connections[k2].to
}

/// How many identities constructing a gate of this kind draws from
/// the allocator: one for that gate itself plus one per owned pin.
pub open spec fn gate_type_cost(t: crate::gate::GateType) -> usize {
    match t {
        crate::gate::GateType::And => 4,
        crate::gate::GateType::Not => 3,
        crate::gate::GateType::Source => 2,
        crate::gate::GateType::Output => 2,
        crate::gate::GateType::Chip => 1,
    }
}

/// What gate construction of the given kind yields when the
/// allocator stands at `n`: ids are drawn in order, gate first, then
/// input pins, then output pins, and every pin starts undefined.
pub open spec fn new_gate_spec(t: crate::gate::GateType, n: usize) -> GateV {
    match t {
        crate::gate::GateType::And => GateV::And(
            AndGate {
                id: n,
                a: Pin { id: (n + 1) as usize, kind: PinType::GateInput, val: None },
                b: Pin { id: (n + 2) as usize, kind: PinType::GateInput, val: None },
                out: Pin { id: (n + 3) as usize, kind: PinType::GateOutput, val: None },
            },
        ),
        crate::gate::GateType::Not => GateV::Not(
            NotGate {
                id: n,
                a: Pin { id: (n + 1) as usize, kind: PinType::GateInput, val: None },
                out: Pin { id: (n + 2) as usize, kind: PinType::GateOutput, val: None },
            },
        ),
        crate::gate::GateType::Source => GateV::Source(
            SourceGate {
                id: n,
                out: Pin { id: (n + 1) as usize, kind: PinType::GateOutput, val: None },
            },
        ),
        crate::gate::GateType::Output => GateV::Output(
            OutputGate {
                id: n,
                a: Pin { id: (n + 1) as usize, kind: PinType::GateInput, val: None },
            },
        ),
        crate::gate::GateType::Chip => GateV::Chip(
            ChipV {
                id: n,
                gates: Seq::empty(),
                connections: Seq::empty(),
                input: Seq::empty(),
                output: Seq::empty(),
            },
        ),
    }
}

/// Every identity in a gate (its own and its pins', recursively)
/// is strictly below the bound.
pub open spec fn gate_ids_below(g: GateV, n: usize) -> bool
    decreases g,
{
    match g {
        GateV::And(x) => x.id < n && x.a.id < n && x.b.id < n && x.out.id < n,
        GateV::Not(x) => x.id < n && x.a.id < n && x.out.id < n,
        GateV::Source(x) => x.id < n && x.out.id < n,
        GateV::Output(x) => x.id < n && x.a.id < n,
        GateV::Chip(c) => chip_ids_below(c, n),
    }
}

/// Every identity in the chip (its own, its shell pins', and its
/// gates', recursively) is strictly below the bound.
pub open spec fn chip_ids_below(c: ChipV, n: usize) -> bool
    decreases c,
{
    &&& c.id < n
    &&& forall|j: int| 0 <= j < c.input.len() ==> (#[trigger] c.input[j]).id < n
    &&& forall|j: int| 0 <= j < c.output.len() ==> (#[trigger] c.output[j]).id < n
    &&& forall|i: int| 0 <= i < c.gates.len() ==> gate_ids_below(#[trigger] c.gates[i], n)
}

/// Every identity in a gate is at least the bound.
pub open spec fn gate_ids_from(g: GateV, n: usize) -> bool
    decreases g,
{
    match g {
        GateV::And(x) => x.id >= n && x.a.id >= n && x.b.id >= n && x.out.id >= n,
        GateV::Not(x) => x.id >= n && x.a.id >= n && x.out.id >= n,
        GateV::Source(x) => x.id >= n && x.out.id >= n,
        GateV::Output(x) => x.id >= n && x.a.id >= n,
        GateV::Chip(c) => chip_ids_from(c, n),
    }
}

/// Every identity in the chip is at least the bound.
pub open spec fn chip_ids_from(c: ChipV, n: usize) -> bool
    decreases c,
{
    &&& c.id >= n
    &&& forall|j: int| 0 <= j < c.input.len() ==> (#[trigger] c.input[j]).id >= n
    &&& forall|j: int| 0 <= j < c.output.len() ==> (#[trigger] c.output[j]).id >= n
    &&& forall|i: int| 0 <= i < c.gates.len() ==> gate_ids_from(#[trigger] c.gates[i], n)
}

/// Whether the identity occurs anywhere in a gate: as its own id
/// or a pin id, recursively through embedded chips.
pub open spec fn gate_has_id(g: GateV, id: usize) -> bool
    decreases g,
{
    match g {
        GateV::And(x) => id == x.id || id == x.a.id || id == x.b.id || id == x.out.id,
        GateV::Not(x) => id == x.id || id == x.a.id || id == x.out.id,
        GateV::Source(x) => id == x.id || id == x.out.id,
        GateV::Output(x) => id == x.id || id == x.a.id,
        GateV::Chip(c) => chip_has_id(c, id),
    }
}

/// Whether the identity occurs anywhere in the chip: as the chip's
/// id, a shell pin id, or inside one of its gates.
pub open spec fn chip_has_id(c: ChipV, id: usize) -> bool
    decreases c,
{
    ||| id == c.id
    ||| exists|j: int| 0 <= j < c.input.len() && (#[trigger] c.input[j]).id == id
    ||| exists|j: int| 0 <= j < c.output.len() && (#[trigger] c.output[j]).id == id
    ||| exists|i: int| 0 <= i < c.gates.len() && gate_has_id(#[trigger] c.gates[i], id)
}

/// An id bounded from below stays bounded as the bound loosens.
pub proof fn lemma_gate_ids_below_mono(g: GateV, n: usize, m: usize)
    requires
        gate_ids_below(g, n),
        n <= m,
    ensures
        gate_ids_below(g, m),
    decreases g,
{
    match g {
        GateV::Chip(c) => lemma_chip_ids_below_mono(c, n, m),
        _ => {},
    }
}

/// An id bounded from below stays bounded as the bound loosens.
pub proof fn lemma_chip_ids_below_mono(c: ChipV, n: usize, m: usize)
    requires
        chip_ids_below(c, n),
        n <= m,
    ensures
        chip_ids_below(c, m),
    decreases c,
{
    assert forall|i: int| 0 <= i < c.gates.len() implies gate_ids_below(
        #[trigger] c.gates[i],
        m,
    ) by {
        lemma_gate_ids_below_mono(c.gates[i], n, m);
    }
}

/// An id bounded from above stays bounded as the bound tightens.
pub proof fn lemma_gate_ids_from_mono(g: GateV, n: usize, m: usize)
    requires
        gate_ids_from(g, n),
        m <= n,
    ensures
        gate_ids_from(g, m),
    decreases g,
{
    match g {
        GateV::Chip(c) => lemma_chip_ids_from_mono(c, n, m),
        _ => {},
    }
}

/// An id bounded from above stays bounded as the bound tightens.
pub proof fn lemma_chip_ids_from_mono(c: ChipV, n: usize, m: usize)
    requires
        chip_ids_from(c, n),
        m <= n,
    ensures
        chip_ids_from(c, m),
    decreases c,
{
    assert forall|i: int| 0 <= i < c.gates.len() implies gate_ids_from(
        #[trigger] c.gates[i],
        m,
    ) by {
        lemma_gate_ids_from_mono(c.gates[i], n, m);
    }
}

/// No identity occurs in a gate bounded below `n` and also in one
/// bounded from `n`.
pub proof fn lemma_gate_ids_below_has(g: GateV, n: usize, id: usize)
    requires
        gate_ids_below(g, n),
        gate_has_id(g, id),
    ensures
        id < n,
    decreases g,
{
    match g {
        GateV::Chip(c) => lemma_chip_ids_below_has(c, n, id),
        _ => {},
    }
}

/// An identity occurring in a chip bounded below `n` is below `n`.
pub proof fn lemma_chip_ids_below_has(c: ChipV, n: usize, id: usize)
    requires
        chip_ids_below(c, n),
        chip_has_id(c, id),
    ensures
        id < n,
    decreases c,
{
    if exists|i: int| 0 <= i < c.gates.len() && gate_has_id(#[trigger] c.gates[i], id) {
        let i = choose|i: int| 0 <= i < c.gates.len() && gate_has_id(#[trigger] c.gates[i], id);
        lemma_gate_ids_below_has(c.gates[i], n, id);
    }
}

/// An identity occurring in a gate bounded from `n` is at least `n`.
pub proof fn lemma_gate_ids_from_has(g: GateV, n: usize, id: usize)
    requires
        gate_ids_from(g, n),
        gate_has_id(g, id),
    ensures
        id >= n,
    decreases g,
{
    match g {
        GateV::Chip(c) => lemma_chip_ids_from_has(c, n, id),
        _ => {},
    }
}

/// An identity occurring in a chip bounded from `n` is at least `n`.
pub proof fn lemma_chip_ids_from_has(c: ChipV, n: usize, id: usize)
    requires
        chip_ids_from(c, n),
        chip_has_id(c, id),
    ensures
        id >= n,
    decreases c,
{
    if exists|i: int| 0 <= i < c.gates.len() && gate_has_id(#[trigger] c.gates[i], id) {
        let i = choose|i: int| 0 <= i < c.gates.len() && gate_has_id(#[trigger] c.gates[i], id);
        lemma_gate_ids_from_has(c.gates[i], n, id);
    }
}

} // verus!
