//! Shape of a circuit: everything but the pin values. A simulation
//! pass only writes values, so it preserves the shape; this module
//! defines that notion and proves the preservation, which in turn
//! carries well-formedness and nesting depth through a pass.

use vstd::prelude::*;
use crate::pin::Pin;
use crate::view::{
    ChipV, GateV, gv_set_pin, input_ids, output_ids, gv_id, gate_depth, gates_depth, wf_gate,
    wf_chip, is_driver, is_dest, set_first_pin, find_pin_ix, chip_set_shell,
};
use crate::sim::{
    deliver, propagate_from_wire, push_inputs_from, push_shell_inputs, propagate_outputs_from,
    eval_gate_v, run_gates_v, sim_chip_v, sim_chip,
};

verus! {

/// Two pins of one shape: same identity and role; the value may
/// differ.
pub open spec fn same_shape_p(p1: Pin, p2: Pin) -> bool {
    p1.id == p2.id && p1.kind == p2.kind
}

/// Two pin sequences of one shape, element by element.
pub open spec fn same_shape_pins(s1: Seq<Pin>, s2: Seq<Pin>) -> bool {
    s1.len() == s2.len() && forall|j: int|
        0 <= j < s1.len() ==> same_shape_p(#[trigger] s1[j], s2[j])
}

/// Two gates of one shape: same variant, same identities and roles
/// throughout; only pin values may differ.
pub open spec fn same_shape_g(g1: GateV, g2: GateV) -> bool
    decreases g1,
{
    match (g1, g2) {
        (GateV::And(x1), GateV::And(x2)) => x1.id == x2.id && same_shape_p(x1.a, x2.a)
            && same_shape_p(x1.b, x2.b) && same_shape_p(x1.out, x2.out),
        (GateV::Not(x1), GateV::Not(x2)) => x1.id == x2.id && same_shape_p(x1.a, x2.a)
            && same_shape_p(x1.out, x2.out),
        (GateV::Source(x1), GateV::Source(x2)) => x1.id == x2.id && same_shape_p(x1.out, x2.out),
        (GateV::Output(x1), GateV::Output(x2)) => x1.id == x2.id && same_shape_p(x1.a, x2.a),
        (GateV::Chip(c1), GateV::Chip(c2)) => same_shape_c(c1, c2),
        _ => false,
    }
}

/// Two chips of one shape: same id, same wiring, shell pins and
/// gates of one shape throughout.
pub open spec fn same_shape_c(c1: ChipV, c2: ChipV) -> bool
    decreases c1,
{
    &&& c1.id == c2.id
    &&& c1.connections == c2.connections
    &&& same_shape_pins(c1.input, c2.input)
    &&& same_shape_pins(c1.output, c2.output)
    &&& c1.gates.len() == c2.gates.len()
    &&& forall|i: int| 0 <= i < c1.gates.len() ==> same_shape_g(#[trigger] c1.gates[i], c2.gates[i])
}

/// Every gate has its own shape.
pub proof fn lemma_shape_refl_g(g: GateV)
    ensures
        same_shape_g(g, g),
    decreases g,
{
    match g {
        GateV::Chip(c) => lemma_shape_refl_c(c),
        _ => {},
    }
}

/// Every chip has its own shape.
pub proof fn lemma_shape_refl_c(c: ChipV)
    ensures
        same_shape_c(c, c),
    decreases c,
{
    assert forall|i: int| 0 <= i < c.gates.len() implies same_shape_g(
        #[trigger] c.gates[i],
        c.gates[i],
    ) by {
        lemma_shape_refl_g(c.gates[i]);
    }
}

/// Shape agreement is transitive over gates.
pub proof fn lemma_shape_trans_g(a: GateV, b: GateV, g: GateV)
    requires
        same_shape_g(a, b),
        same_shape_g(b, g),
    ensures
        same_shape_g(a, g),
    decreases a,
{
    match (a, b, g) {
        (GateV::Chip(c1), GateV::Chip(c2), GateV::Chip(c3)) => lemma_shape_trans_c(c1, c2, c3),
        _ => {},
    }
}

/// Shape agreement is transitive over chips.
pub proof fn lemma_shape_trans_c(a: ChipV, b: ChipV, c: ChipV)
    requires
        same_shape_c(a, b),
        same_shape_c(b, c),
    ensures
        same_shape_c(a, c),
    decreases a,
{
    assert forall|i: int| 0 <= i < a.gates.len() implies same_shape_g(
        #[trigger] a.gates[i],
        c.gates[i],
    ) by {
        lemma_shape_trans_g(a.gates[i], b.gates[i], c.gates[i]);
    }
}

/// Gates of one shape have equal identities and equal input and
/// output pin id lists.
pub proof fn lemma_shape_ids_g(g1: GateV, g2: GateV)
    requires
        same_shape_g(g1, g2),
    ensures
        gv_id(g1) == gv_id(g2),
        input_ids(g1) == input_ids(g2),
        output_ids(g1) == output_ids(g2),
{
    match (g1, g2) {
        (GateV::Chip(c1), GateV::Chip(c2)) => {
            assert(input_ids(g1) =~= input_ids(g2));
            assert(output_ids(g1) =~= output_ids(g2));
        },
        _ => {
            assert(input_ids(g1) =~= input_ids(g2));
            assert(output_ids(g1) =~= output_ids(g2));
        },
    }
}

/// Gates of one shape have equal nesting depth.
pub proof fn lemma_shape_depth_g(g1: GateV, g2: GateV)
    requires
        same_shape_g(g1, g2),
    ensures
        gate_depth(g1) == gate_depth(g2),
    decreases g1,
{
    match (g1, g2) {
        (GateV::Chip(c1), GateV::Chip(c2)) => lemma_shape_gates_depth(c1.gates, c2.gates),
        _ => {},
    }
}

/// Gate sequences of one shape, element by element, have equal
/// depth.
pub proof fn lemma_shape_gates_depth(s1: Seq<GateV>, s2: Seq<GateV>)
    requires
        s1.len() == s2.len(),
        forall|i: int| 0 <= i < s1.len() ==> same_shape_g(#[trigger] s1[i], s2[i]),
    ensures
        gates_depth(s1) == gates_depth(s2),
    decreases s1,
{
    if s1.len() > 0 {
        lemma_shape_depth_g(s1.last(), s2.last());
        assert(forall|i: int|
            0 <= i < s1.drop_last().len() ==> #[trigger] s1.drop_last()[i] == s1[i]);
        lemma_shape_gates_depth(s1.drop_last(), s2.drop_last());
    }
}

/// Writing a pin value never changes a gate's shape.
pub proof fn lemma_set_pin_shape(g: GateV, pid: usize, v: Option<bool>)
    ensures
        same_shape_g(g, gv_set_pin(g, pid, v)),
{
    match g {
        GateV::Chip(c) => {
            let c2 = chip_set_shell(c, pid, v);
            crate::view::lemma_find_pin_ix(c.input, pid);
            crate::view::lemma_find_pin_ix(c.output, pid);
            assert(same_shape_pins(c.input, c2.input));
            assert(same_shape_pins(c.output, c2.output));
            assert forall|i: int| 0 <= i < c.gates.len() implies same_shape_g(
                #[trigger] c.gates[i],
                c2.gates[i],
            ) by {
                lemma_shape_refl_g(c.gates[i]);
            }
        },
        _ => {},
    }
}

/// Delivering a value to a pin never changes the chip's shape.
pub proof fn lemma_deliver_shape(c: ChipV, pid: usize, v: Option<bool>)
    ensures
        same_shape_c(c, deliver(c, pid, v)),
{
    let c2 = deliver(c, pid, v);
    assert forall|i: int| 0 <= i < c.gates.len() implies same_shape_g(
        #[trigger] c.gates[i],
        c2.gates[i],
    ) by {
        if input_ids(c.gates[i]).contains(pid) {
            lemma_set_pin_shape(c.gates[i], pid, v);
        } else {
            lemma_shape_refl_g(c.gates[i]);
        }
    }
    crate::view::lemma_find_pin_ix(c.output, pid);
    assert(same_shape_pins(c.output, c2.output));
    assert(same_shape_pins(c.input, c2.input));
}

/// Propagation along the wiring never changes the chip's shape.
pub proof fn lemma_propagate_shape(c: ChipV, ws: Seq<crate::circuit::Wire>, pid: usize, v: Option<
    bool,
>, k: int)
    ensures
        same_shape_c(c, propagate_from_wire(c, ws, pid, v, k)),
    decreases ws.len() - k,
{
    if k < 0 || k >= ws.len() {
        lemma_shape_refl_c(c);
    } else if ws[k].from == pid {
        let c2 = deliver(c, ws[k].to, v);
        lemma_deliver_shape(c, ws[k].to, v);
        lemma_propagate_shape(c2, ws, pid, v, k + 1);
        lemma_shape_trans_c(c, c2, propagate_from_wire(c2, ws, pid, v, k + 1));
    } else {
        lemma_propagate_shape(c, ws, pid, v, k + 1);
    }
}

/// Pushing shell input values never changes the chip's shape.
pub proof fn lemma_push_inputs_shape(c: ChipV, ins: Seq<Pin>, j: int)
    ensures
        same_shape_c(c, push_inputs_from(c, ins, j)),
    decreases ins.len() - j,
{
    if j < 0 || j >= ins.len() {
        lemma_shape_refl_c(c);
    } else {
        let c2 = propagate_from_wire(c, c.connections, ins[j].id, ins[j].val, 0);
        lemma_propagate_shape(c, c.connections, ins[j].id, ins[j].val, 0);
        lemma_push_inputs_shape(c2, ins, j + 1);
        lemma_shape_trans_c(c, c2, push_inputs_from(c2, ins, j + 1));
    }
}

/// Delivering an evaluated gate's outputs never changes the chip's
/// shape.
pub proof fn lemma_propagate_outputs_shape(c: ChipV, i: int, outs: Seq<usize>, t: int)
    ensures
        same_shape_c(c, propagate_outputs_from(c, i, outs, t)),
    decreases outs.len() - t,
{
    if t < 0 || t >= outs.len() || !(0 <= i < c.gates.len()) {
        lemma_shape_refl_c(c);
    } else {
        let v = crate::sim::pin_val_or_none(c.gates[i], outs[t]);
        let c2 = propagate_from_wire(c, c.connections, outs[t], v, 0);
        lemma_propagate_shape(c, c.connections, outs[t], v, 0);
        lemma_propagate_outputs_shape(c2, i, outs, t + 1);
        lemma_shape_trans_c(c, c2, propagate_outputs_from(c2, i, outs, t + 1));
    }
}

/// Evaluating a gate never changes its shape.
pub proof fn lemma_eval_shape(g: GateV)
    ensures
        same_shape_g(g, eval_gate_v(g).0),
    decreases gate_depth(g), 0nat, 0int,
{
    match g {
        GateV::Chip(inner) => {
            lemma_sim_shape(inner, gates_depth(inner.gates));
        },
        _ => {
            lemma_shape_refl_g(g);
        },
    }
}

/// Running the evaluation fold never changes the chip's shape.
pub proof fn lemma_run_shape(c: ChipV, ord: Seq<usize>, k: int, d: nat)
    ensures
        same_shape_c(c, run_gates_v(c, ord, k, d).0),
    decreases d, 1nat, ord.len() - k,
{
    if k < 0 || k >= ord.len() {
        lemma_shape_refl_c(c);
    } else {
        let i = ord[k] as int;
        if !(i < c.gates.len()) || gate_depth(c.gates[i]) > d {
            lemma_shape_refl_c(c);
        } else {
            let (g2, rb) = eval_gate_v(c.gates[i]);
            lemma_eval_shape(c.gates[i]);
            let c2 = ChipV { gates: c.gates.update(i, g2), ..c };
            assert forall|x: int| 0 <= x < c.gates.len() implies same_shape_g(
                #[trigger] c.gates[x],
                c2.gates[x],
            ) by {
                if x != i {
                    lemma_shape_refl_g(c.gates[x]);
                }
            }
            assert(same_shape_pins(c.input, c2.input));
            assert(same_shape_pins(c.output, c2.output));
            assert(same_shape_c(c, c2));
            match rb {
                Err(_) => {},
                Ok(_) => {
                    let c3 = propagate_outputs_from(c2, i, output_ids(g2), 0);
                    lemma_propagate_outputs_shape(c2, i, output_ids(g2), 0);
                    lemma_shape_trans_c(c, c2, c3);
                    lemma_run_shape(c3, ord, k + 1, d);
                    lemma_shape_trans_c(c, c3, run_gates_v(c3, ord, k + 1, d).0);
                },
            }
        }
    }
}

/// A full simulation pass never changes the chip's shape: only pin
/// values move.
pub proof fn lemma_sim_shape(c: ChipV, d: nat)
    ensures
        same_shape_c(c, sim_chip_v(c, d).0),
    decreases d, 3nat, 0int,
{
    let c0 = push_shell_inputs(c);
    lemma_push_inputs_shape(c, c.input, 0);
    let ord = crate::sim::topo(c0);
    if ord.len() != c0.gates.len() {
    } else {
        lemma_run_shape(c0, ord, 0, d);
        lemma_shape_trans_c(c, c0, run_gates_v(c0, ord, 0, d).0);
    }
}

/// Chips of one shape agree on which pins drive and which pins can
/// be driven.
pub proof fn lemma_shape_driver_dest(c1: ChipV, c2: ChipV, p: usize)
    requires
        same_shape_c(c1, c2),
    ensures
        is_driver(c1, p) == is_driver(c2, p),
        is_dest(c1, p) == is_dest(c2, p),
{
    assert forall|i: int| 0 <= i < c1.gates.len() implies input_ids(#[trigger] c1.gates[i])
        == input_ids(c2.gates[i]) && output_ids(c1.gates[i]) == output_ids(c2.gates[i]) by {
        lemma_shape_ids_g(c1.gates[i], c2.gates[i]);
    }
    if exists|j: int| 0 <= j < c1.input.len() && c1.input[j].id == p {
        let j = choose|j: int| 0 <= j < c1.input.len() && c1.input[j].id == p;
        assert(0 <= j < c2.input.len() && c2.input[j].id == p);
    }
    if exists|j: int| 0 <= j < c2.input.len() && c2.input[j].id == p {
        let j = choose|j: int| 0 <= j < c2.input.len() && c2.input[j].id == p;
        assert(0 <= j < c1.input.len() && c1.input[j].id == p);
    }
    if exists|j: int| 0 <= j < c1.output.len() && c1.output[j].id == p {
        let j = choose|j: int| 0 <= j < c1.output.len() && c1.output[j].id == p;
        assert(0 <= j < c2.output.len() && c2.output[j].id == p);
    }
    if exists|j: int| 0 <= j < c2.output.len() && c2.output[j].id == p {
        let j = choose|j: int| 0 <= j < c2.output.len() && c2.output[j].id == p;
        assert(0 <= j < c1.output.len() && c1.output[j].id == p);
    }
    if exists|i: int| 0 <= i < c1.gates.len() && (#[trigger] output_ids(c1.gates[i])).contains(p) {
        let i = choose|i: int|
            0 <= i < c1.gates.len() && (#[trigger] output_ids(c1.gates[i])).contains(p);
        assert(output_ids(c2.gates[i]).contains(p));
    }
    if exists|i: int| 0 <= i < c2.gates.len() && (#[trigger] output_ids(c2.gates[i])).contains(p) {
        let i = choose|i: int|
            0 <= i < c2.gates.len() && (#[trigger] output_ids(c2.gates[i])).contains(p);
        assert(output_ids(c1.gates[i]).contains(p));
    }
    if exists|i: int| 0 <= i < c1.gates.len() && (#[trigger] input_ids(c1.gates[i])).contains(p) {
        let i = choose|i: int|
            0 <= i < c1.gates.len() && (#[trigger] input_ids(c1.gates[i])).contains(p);
        assert(input_ids(c2.gates[i]).contains(p));
    }
    if exists|i: int| 0 <= i < c2.gates.len() && (#[trigger] input_ids(c2.gates[i])).contains(p) {
        let i = choose|i: int|
            0 <= i < c2.gates.len() && (#[trigger] input_ids(c2.gates[i])).contains(p);
        assert(input_ids(c1.gates[i]).contains(p));
    }
}

/// Well-formedness only reads the shape: a chip of the same shape
/// as a well-formed one is well-formed.
pub proof fn lemma_wf_shape_c(c1: ChipV, c2: ChipV)
    requires
        wf_chip(c1),
        same_shape_c(c1, c2),
    ensures
        wf_chip(c2),
    decreases c1,
{
    assert forall|i: int| 0 <= i < c2.gates.len() implies wf_gate(#[trigger] c2.gates[i]) by {
        lemma_wf_shape_g(c1.gates[i], c2.gates[i]);
    }
    assert forall|i: int, j: int| 0 <= i < j < c2.gates.len() implies gv_id(c2.gates[i]) != gv_id(
        c2.gates[j],
    ) by {
        lemma_shape_ids_g(c1.gates[i], c2.gates[i]);
        lemma_shape_ids_g(c1.gates[j], c2.gates[j]);
    }
    assert forall|j: int| 0 <= j < c2.input.len() implies (#[trigger] c2.input[j]).kind
        == crate::pin::PinType::ChipInput by {
        assert(same_shape_p(c1.input[j], c2.input[j]));
    }
    assert forall|j: int| 0 <= j < c2.output.len() implies (#[trigger] c2.output[j]).kind
        == crate::pin::PinType::ChipOutput by {
        assert(same_shape_p(c1.output[j], c2.output[j]));
    }
    assert forall|k: int|
        0 <= k < c2.connections.len() implies is_driver(
        c2,
        (#[trigger] c2.connections[k]).from,
    ) && is_dest(c2, c2.connections[k].to) by {
        assert(is_driver(c1, c1.connections[k].from));
        assert(is_dest(c1, c1.connections[k].to));
        lemma_shape_driver_dest(c1, c2, c1.connections[k].from);
        lemma_shape_driver_dest(c1, c2, c1.connections[k].to);
    }
}

/// Well-formedness only reads the shape, gate version.
pub proof fn lemma_wf_shape_g(g1: GateV, g2: GateV)
    requires
        wf_gate(g1),
        same_shape_g(g1, g2),
    ensures
        wf_gate(g2),
    decreases g1,
{
    match (g1, g2) {
        (GateV::Chip(c1), GateV::Chip(c2)) => lemma_wf_shape_c(c1, c2),
        _ => {},
    }
}

/// A full simulation pass leaves a well-formed chip well-formed.
pub proof fn lemma_sim_wf(c: ChipV)
    requires
        wf_chip(c),
    ensures
        wf_chip(sim_chip(c).0),
{
    lemma_sim_shape(c, gates_depth(c.gates));
    lemma_wf_shape_c(c, sim_chip(c).0);
}

} // verus!
