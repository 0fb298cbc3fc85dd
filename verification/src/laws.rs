//! The engine's laws: properties that hold of every circuit, stated
//! once and proved against the contracts of the operations.

use vstd::prelude::*;
use crate::circuit::Wire;
use crate::CircuitError;
use crate::gate::{AndGate, NotGate};
use crate::view::{
    ChipV, GateV, wires_after_connect, drop_edges_into, lemma_drop_edges_into, chip_has_id,
    chip_ids_below, lemma_chip_ids_below_has, lemma_chip_ids_from_has,
};
use crate::pin::Pin;
use crate::sim::{
    eval_gate_v, deliver, propagate_from_wire, push_inputs_from, push_shell_inputs,
    propagate_outputs_from, run_gates_v, sim_chip, topo, order_rec, first_ready_from, ready,
    dep_on, lemma_first_ready_props,
};
use crate::view::{input_ids, output_ids};
use crate::copy::{copy_chip_spec, chip_id_cost, lemma_copy_chip_props};

verus! {

/// Law: an AND gate with both inputs defined computes their exact
/// conjunction — false for (0,0), (0,1) and (1,0), true for (1,1) —
/// and writes it into its output pin.
pub proof fn lemma_and_gate_truth(x: AndGate, p: bool, q: bool)
    requires
        x.a.val == Some(p),
        x.b.val == Some(q),
    ensures
        eval_gate_v(GateV::And(x)).1 == Ok::<bool, CircuitError>(p && q),
        eval_gate_v(GateV::And(x)).0->And_0.out.val == Some(p && q),
{
}

/// Law: a NOT gate with a defined input computes the exact logical
/// complement of that input, and writes it into its output pin.
pub proof fn lemma_not_gate_truth(x: NotGate, p: bool)
    requires
        x.a.val == Some(p),
    ensures
        eval_gate_v(GateV::Not(x)).1 == Ok::<bool, CircuitError>(!p),
        eval_gate_v(GateV::Not(x)).0->Not_0.out.val == Some(!p),
{
}

/// Law: a gate evaluated while a required input pin is undefined
/// reports [`CircuitError::UndefinedInput`] and changes nothing —
/// an undefined signal is never silently read as zero.
pub proof fn lemma_undefined_input_rejected(g: GateV)
    requires
        ({
            ||| g matches GateV::And(x) && (x.a.val is None || x.b.val is None)
            ||| g matches GateV::Not(x) && x.a.val is None
            ||| g matches GateV::Output(x) && x.a.val is None
        }),
    ensures
        eval_gate_v(g).1 == Err::<bool, CircuitError>(CircuitError::UndefinedInput),
        eval_gate_v(g).0 == g,
{
}

/// Law: wiring a destination twice, from two drivers in turn,
/// leaves exactly one active edge into that destination — the most
/// recent one — whatever the wiring held before.
pub proof fn lemma_single_driver(ws: Seq<Wire>, a: usize, b: usize, t: usize)
    ensures
        ({
            let ws2 = wires_after_connect(wires_after_connect(ws, a, t), b, t);
            &&& ws2.len() > 0
            &&& ws2.last() == (Wire { from: b, to: t })
            &&& forall|k: int| 0 <= k < ws2.len() ==> ((#[trigger] ws2[k]).to == t <==> k == ws2.len() - 1)
        }),
{
    let ws1 = wires_after_connect(ws, a, t);
    let ws2 = wires_after_connect(ws1, b, t);
    lemma_drop_edges_into(ws, t);
    lemma_drop_edges_into(ws1, t);
    let kept = drop_edges_into(ws1, t);
    assert forall|k: int| 0 <= k < ws2.len() implies ((#[trigger] ws2[k]).to == t <==> k
        == ws2.len() - 1) by {
        if k < kept.len() {
            assert(ws2[k] == kept[k]);
        }
    }
}

/// Law: evaluating a leaf gate is idempotent. Once a leaf gate has
/// evaluated successfully, evaluating it again computes the same
/// value and leaves every one of its pins exactly as it stands.
pub proof fn lemma_eval_leaf_idempotent(g: GateV)
    requires
        !(g is Chip),
        eval_gate_v(g).1 is Ok,
    ensures
        eval_gate_v(eval_gate_v(g).0).0 == eval_gate_v(g).0,
        eval_gate_v(eval_gate_v(g).0).1 == eval_gate_v(g).1,
{
}

/// Delivery never touches shell input pins or source gates: a
/// source has no input pin to deliver into.
proof fn lemma_deliver_leaves_drivers(c: ChipV, pid: usize, v: Option<bool>)
    ensures
        deliver(c, pid, v).input == c.input,
        deliver(c, pid, v).gates.len() == c.gates.len(),
        deliver(c, pid, v).connections == c.connections,
        deliver(c, pid, v).id == c.id,
        forall|i: int|
            0 <= i < c.gates.len() && (#[trigger] c.gates[i]) is Source ==> deliver(
                c,
                pid,
                v,
            ).gates[i] == c.gates[i],
{
    assert forall|i: int| 0 <= i < c.gates.len() && (#[trigger] c.gates[i]) is Source implies deliver(
        c,
        pid,
        v,
    ).gates[i] == c.gates[i] by {
        assert(!input_ids(c.gates[i]).contains(pid));
    }
}

/// Propagation never touches shell input pins or source gates.
proof fn lemma_propagate_leaves_drivers(
    c: ChipV,
    ws: Seq<Wire>,
    pid: usize,
    v: Option<bool>,
    k: int,
)
    ensures
        propagate_from_wire(c, ws, pid, v, k).input == c.input,
        propagate_from_wire(c, ws, pid, v, k).gates.len() == c.gates.len(),
        propagate_from_wire(c, ws, pid, v, k).connections == c.connections,
        propagate_from_wire(c, ws, pid, v, k).id == c.id,
        forall|i: int|
            0 <= i < c.gates.len() && (#[trigger] c.gates[i]) is Source ==> propagate_from_wire(
                c,
                ws,
                pid,
                v,
                k,
            ).gates[i] == c.gates[i],
    decreases ws.len() - k,
{
    if k < 0 || k >= ws.len() {
    } else if ws[k].from == pid {
        let c2 = deliver(c, ws[k].to, v);
        lemma_deliver_leaves_drivers(c, ws[k].to, v);
        lemma_propagate_leaves_drivers(c2, ws, pid, v, k + 1);
    } else {
        lemma_propagate_leaves_drivers(c, ws, pid, v, k + 1);
    }
}

/// Pushing shell inputs never touches shell input pins or source
/// gates.
proof fn lemma_push_leaves_drivers(c: ChipV, ins: Seq<Pin>, j: int)
    ensures
        push_inputs_from(c, ins, j).input == c.input,
        push_inputs_from(c, ins, j).gates.len() == c.gates.len(),
        push_inputs_from(c, ins, j).connections == c.connections,
        push_inputs_from(c, ins, j).id == c.id,
        forall|i: int|
            0 <= i < c.gates.len() && (#[trigger] c.gates[i]) is Source ==> push_inputs_from(
                c,
                ins,
                j,
            ).gates[i] == c.gates[i],
    decreases ins.len() - j,
{
    if j < 0 || j >= ins.len() {
    } else {
        let c2 = propagate_from_wire(c, c.connections, ins[j].id, ins[j].val, 0);
        lemma_propagate_leaves_drivers(c, c.connections, ins[j].id, ins[j].val, 0);
        lemma_push_leaves_drivers(c2, ins, j + 1);
    }
}

/// Delivering an evaluated gate's outputs never touches shell input
/// pins or source gates.
proof fn lemma_propagate_outputs_leaves_drivers(c: ChipV, i: int, outs: Seq<usize>, t: int)
    ensures
        propagate_outputs_from(c, i, outs, t).input == c.input,
        propagate_outputs_from(c, i, outs, t).gates.len() == c.gates.len(),
        propagate_outputs_from(c, i, outs, t).connections == c.connections,
        propagate_outputs_from(c, i, outs, t).id == c.id,
        forall|x: int|
            0 <= x < c.gates.len() && (#[trigger] c.gates[x]) is Source ==> propagate_outputs_from(
                c,
                i,
                outs,
                t,
            ).gates[x] == c.gates[x],
    decreases outs.len() - t,
{
    if t < 0 || t >= outs.len() || !(0 <= i < c.gates.len()) {
    } else {
        let v = crate::sim::pin_val_or_none(c.gates[i], outs[t]);
        let c2 = propagate_from_wire(c, c.connections, outs[t], v, 0);
        lemma_propagate_leaves_drivers(c, c.connections, outs[t], v, 0);
        lemma_propagate_outputs_leaves_drivers(c2, i, outs, t + 1);
    }
}

/// The evaluation fold never touches shell input pins or source
/// gates: evaluating a source is a no-op, and nothing delivers into
/// one.
proof fn lemma_run_leaves_drivers(c: ChipV, ord: Seq<usize>, k: int, d: nat)
    ensures
        run_gates_v(c, ord, k, d).0.input == c.input,
        run_gates_v(c, ord, k, d).0.gates.len() == c.gates.len(),
        run_gates_v(c, ord, k, d).0.connections == c.connections,
        run_gates_v(c, ord, k, d).0.id == c.id,
        forall|x: int|
            0 <= x < c.gates.len() && (#[trigger] c.gates[x]) is Source ==> run_gates_v(
                c,
                ord,
                k,
                d,
            ).0.gates[x] == c.gates[x],
    decreases d, 1nat, ord.len() - k,
{
    if k < 0 || k >= ord.len() {
    } else {
        let i = ord[k] as int;
        if !(i < c.gates.len()) || crate::view::gate_depth(c.gates[i]) > d {
        } else {
            let (g2, rb) = eval_gate_v(c.gates[i]);
            let c2 = ChipV { gates: c.gates.update(i, g2), ..c };
            assert forall|x: int|
                0 <= x < c.gates.len() && (#[trigger] c.gates[x]) is Source implies c2.gates[x]
                == c.gates[x] by {
                if x == i {
                    assert(eval_gate_v(c.gates[i]).0 == c.gates[i]);
                }
            }
            match rb {
                Err(_) => {},
                Ok(_) => {
                    let c3 = propagate_outputs_from(c2, i, crate::view::output_ids(g2), 0);
                    lemma_propagate_outputs_leaves_drivers(c2, i, crate::view::output_ids(g2), 0);
                    lemma_run_leaves_drivers(c3, ord, k + 1, d);
                },
            }
        }
    }
}

/// Law: a simulation pass never changes a circuit's externally
/// driven signals. The chip's shell input pins — values included —
/// and every source gate stand after the pass exactly as they stood
/// before it: two passes read the same inputs.
pub proof fn lemma_sim_preserves_inputs(c: ChipV)
    ensures
        sim_chip(c).0.input == c.input,
        sim_chip(c).0.gates.len() == c.gates.len(),
        forall|x: int|
            0 <= x < c.gates.len() && (#[trigger] c.gates[x]) is Source ==> sim_chip(
                c,
            ).0.gates[x] == c.gates[x],
{
    let d = crate::view::gates_depth(c.gates);
    let c0 = push_shell_inputs(c);
    lemma_push_leaves_drivers(c, c.input, 0);
    let ord = crate::sim::topo(c0);
    if ord.len() != c0.gates.len() {
    } else {
        lemma_run_leaves_drivers(c0, ord, 0, d);
    }
}

/// Law: the evaluation order is sound. Every entry of a chip's
/// dependency order is a gate index, no gate appears twice, and
/// each gate was ready when it was reached: every gate it depends
/// on stands earlier in the order.
pub proof fn lemma_order_valid(c: ChipV)
    requires
        c.gates.len() <= usize::MAX,
    ensures
        ({
            let ord = topo(c);
            &&& forall|k: int| 0 <= k < ord.len() ==> (#[trigger] ord[k] as int) < c.gates.len()
            &&& forall|k1: int, k2: int| 0 <= k1 < k2 < ord.len() ==> ord[k1] != ord[k2]
            &&& forall|k: int|
                0 <= k < ord.len() ==> ready(c, #[trigger] ord.subrange(0, k), ord[k])
        }),
{
    lemma_order_rec_valid(c, Seq::empty(), c.gates.len() as nat);
    assert(Seq::<usize>::empty() =~= topo(c).subrange(0, 0));
}

/// What growing the order keeps: distinct in-range entries, each
/// ready against exactly the entries before it.
proof fn lemma_order_rec_valid(c: ChipV, done: Seq<usize>, fuel: nat)
    requires
        c.gates.len() <= usize::MAX,
        forall|k: int| 0 <= k < done.len() ==> (#[trigger] done[k] as int) < c.gates.len(),
        forall|k1: int, k2: int| 0 <= k1 < k2 < done.len() ==> done[k1] != done[k2],
    ensures
        ({
            let r = order_rec(c, done, fuel);
            &&& done.len() <= r.len()
            &&& r.subrange(0, done.len() as int) == done
            &&& forall|k: int| 0 <= k < r.len() ==> (#[trigger] r[k] as int) < c.gates.len()
            &&& forall|k1: int, k2: int| 0 <= k1 < k2 < r.len() ==> r[k1] != r[k2]
            &&& forall|k: int|
                done.len() <= k < r.len() ==> ready(c, #[trigger] r.subrange(0, k), r[k])
        }),
    decreases fuel,
{
    let r = order_rec(c, done, fuel);
    if fuel == 0 {
        assert(r.subrange(0, done.len() as int) =~= done);
    } else {
        match first_ready_from(c, done, 0) {
            None => {
                assert(r.subrange(0, done.len() as int) =~= done);
            },
            Some(i) => {
                lemma_first_ready_props(c, done, 0);
                let d2 = done.push(i);
                assert(forall|k: int|
                    0 <= k < d2.len() ==> (#[trigger] d2[k] as int) < c.gates.len());
                assert forall|k1: int, k2: int| 0 <= k1 < k2 < d2.len() implies d2[k1]
                    != d2[k2] by {
                    if k2 == d2.len() - 1 {
                        assert(!done.contains(i));
                        assert(done[k1] == d2[k1]);
                    }
                }
                lemma_order_rec_valid(c, d2, (fuel - 1) as nat);
                assert(r == order_rec(c, d2, (fuel - 1) as nat));
                assert(r.subrange(0, done.len() as int) =~= done) by {
                    assert(r.subrange(0, d2.len() as int) == d2);
                    assert(forall|x: int|
                        0 <= x < d2.len() ==> r.subrange(0, d2.len() as int)[x] == #[trigger] r[x]);
                }
                assert forall|k: int| done.len() <= k < r.len() implies ready(
                    c,
                    #[trigger] r.subrange(0, k),
                    r[k],
                ) by {
                    if k == done.len() {
                        assert(r.subrange(0, d2.len() as int) == d2);
                        assert(r[k] == d2[k]);
                        assert(r.subrange(0, k) =~= done);
                    }
                }
            },
        }
    }
}

/// Gates of one shape induce the same dependencies: `dep_on` reads
/// pin ids and wires alone.
proof fn lemma_shape_dep_on(c1: ChipV, c2: ChipV, i: int, j: int)
    requires
        crate::shape::same_shape_c(c1, c2),
        0 <= i < c1.gates.len(),
        0 <= j < c1.gates.len(),
    ensures
        dep_on(c1, i, j) == dep_on(c2, i, j),
{
    crate::shape::lemma_shape_ids_g(c1.gates[i], c2.gates[i]);
    crate::shape::lemma_shape_ids_g(c1.gates[j], c2.gates[j]);
    if dep_on(c1, i, j) {
        let k = choose|k: int|
            0 <= k < c1.connections.len() && output_ids(c1.gates[j]).contains(
                (#[trigger] c1.connections[k]).from,
            ) && input_ids(c1.gates[i]).contains(c1.connections[k].to);
        assert(output_ids(c2.gates[j]).contains(c2.connections[k].from));
        assert(input_ids(c2.gates[i]).contains(c2.connections[k].to));
    }
    if dep_on(c2, i, j) {
        let k = choose|k: int|
            0 <= k < c2.connections.len() && output_ids(c2.gates[j]).contains(
                (#[trigger] c2.connections[k]).from,
            ) && input_ids(c2.gates[i]).contains(c2.connections[k].to);
        assert(output_ids(c1.gates[j]).contains(c1.connections[k].from));
        assert(input_ids(c1.gates[i]).contains(c1.connections[k].to));
    }
}

/// Chips of one shape agree on which gates are ready.
proof fn lemma_shape_ready(c1: ChipV, c2: ChipV, done: Seq<usize>, i: usize)
    requires
        crate::shape::same_shape_c(c1, c2),
    ensures
        ready(c1, done, i) == ready(c2, done, i),
{
    if (i as int) < c1.gates.len() {
        assert forall|j: int| 0 <= j < c1.gates.len() implies dep_on(c1, i as int, j) == dep_on(
            c2,
            i as int,
            j,
        ) by {
            lemma_shape_dep_on(c1, c2, i as int, j);
        }
    }
}

/// Chips of one shape agree on the least ready gate.
proof fn lemma_shape_first_ready(c1: ChipV, c2: ChipV, done: Seq<usize>, i: int)
    requires
        crate::shape::same_shape_c(c1, c2),
    ensures
        first_ready_from(c1, done, i) == first_ready_from(c2, done, i),
    decreases c1.gates.len() - i,
{
    if i < 0 || i >= c1.gates.len() {
    } else {
        lemma_shape_ready(c1, c2, done, i as usize);
        if !ready(c1, done, i as usize) {
            lemma_shape_first_ready(c1, c2, done, i + 1);
        }
    }
}

/// Chips of one shape grow the same order.
proof fn lemma_shape_order_rec(c1: ChipV, c2: ChipV, done: Seq<usize>, fuel: nat)
    requires
        crate::shape::same_shape_c(c1, c2),
    ensures
        order_rec(c1, done, fuel) == order_rec(c2, done, fuel),
    decreases fuel,
{
    if fuel > 0 {
        lemma_shape_first_ready(c1, c2, done, 0);
        match first_ready_from(c1, done, 0) {
            None => {},
            Some(i) => {
                lemma_shape_order_rec(c1, c2, done.push(i), (fuel - 1) as nat);
            },
        }
    }
}

/// Law: the evaluation order depends on the circuit's shape alone.
/// Pin values never influence it; in particular, a simulation pass —
/// which moves values only — leaves the order of a following pass
/// exactly as it found it.
pub proof fn lemma_order_reads_shape_only(c1: ChipV, c2: ChipV)
    requires
        crate::shape::same_shape_c(c1, c2),
    ensures
        topo(c1) == topo(c2),
{
    lemma_shape_order_rec(c1, c2, Seq::empty(), c1.gates.len() as nat);
}

/// Law: a deep copy shares no identity with its source. Every id of
/// the source lies below the allocator's position, every id of the
/// copy at or above it, so no pin id, gate id or chip id occurs in
/// both.
pub proof fn lemma_deep_copy_ids_disjoint(c: ChipV, n: usize, id: usize)
    requires
        chip_ids_below(c, n),
        n + chip_id_cost(c) <= usize::MAX,
    ensures
        !(chip_has_id(c, id) && chip_has_id(copy_chip_spec(c, n).0, id)),
{
    lemma_copy_chip_props(c, n);
    if chip_has_id(c, id) && chip_has_id(copy_chip_spec(c, n).0, id) {
        lemma_chip_ids_below_has(c, n, id);
        lemma_chip_ids_from_has(copy_chip_spec(c, n).0, n, id);
    }
}

} // verus!
