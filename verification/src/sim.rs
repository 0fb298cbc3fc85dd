//! The simulation engine's mathematical semantics.
//!
//! A simulation pass over a chip is a deterministic function of the
//! chip value, defined here step by step: shell input values are
//! pushed along the wiring, the gates are ordered by the dependency
//! graph the wiring induces (a cycle is rejected), and each gate is
//! evaluated in that order, its freshly computed outputs delivered
//! to every pin the wiring says they feed. The executable engine in
//! this module is proved to compute exactly this function.

use vstd::prelude::*;
use crate::pin::Pin;
use crate::circuit::{Chip, Wire, contains_id};
use crate::CircuitError;
use crate::view::{
    ChipV, GateV, gv_set_pin, gv_get_pin, input_ids, output_ids, gate_depth, gates_depth,
    set_first_pin, find_pin_ix, gate_view, gates_view,
};
use crate::gate::{Gate, AndGate, NotGate};

verus! {

/// The value a gate's shell-level pin carries, or `None` when the
/// gate owns no such pin.
pub open spec fn pin_val_or_none(g: GateV, pid: usize) -> Option<bool> {
    match gv_get_pin(g, pid) {
        Some(v) => v,
        None => None,
    }
}

/// Delivery of a value to a destination pin id: every gate whose
/// input list carries the id takes the value into that pin; when no
/// gate input matches, the chip's first matching shell output pin
/// takes it instead.
pub open spec fn deliver(c: ChipV, pid: usize, v: Option<bool>) -> ChipV {
    let gates = c.gates.map_values(
        |g: GateV|
            if input_ids(g).contains(pid) {
                gv_set_pin(g, pid, v)
            } else {
                g
            },
    );
    let hit = exists|i: int| 0 <= i < c.gates.len() && (#[trigger] input_ids(c.gates[i])).contains(
        pid,
    );
    if hit {
        ChipV { gates, ..c }
    } else if find_pin_ix(c.output, pid) != -1 {
        ChipV { gates, output: set_first_pin(c.output, pid, v), ..c }
    } else {
        ChipV { gates, ..c }
    }
}

/// Propagation of a driving pin's value along the wiring `ws`,
/// starting at wire index `k`: each wire leaving the pin delivers
/// the value to its destination, in wiring order.
pub open spec fn propagate_from_wire(
    c: ChipV,
    ws: Seq<Wire>,
    pid: usize,
    v: Option<bool>,
    k: int,
) -> ChipV
    decreases ws.len() - k,
{
    if k < 0 || k >= ws.len() {
        c
    } else if ws[k].from == pid {
        propagate_from_wire(deliver(c, ws[k].to, v), ws, pid, v, k + 1)
    } else {
        propagate_from_wire(c, ws, pid, v, k + 1)
    }
}

/// Propagation of the shell input pins `ins`, from index `j` on:
/// each one's current value runs along the chip's wiring.
pub open spec fn push_inputs_from(c: ChipV, ins: Seq<Pin>, j: int) -> ChipV
    decreases ins.len() - j,
{
    if j < 0 || j >= ins.len() {
        c
    } else {
        push_inputs_from(propagate_from_wire(c, c.connections, ins[j].id, ins[j].val, 0), ins, j + 1)
    }
}

/// The chip after its shell input values have been pushed along the
/// wiring: the first phase of a simulation pass.
pub open spec fn push_shell_inputs(c: ChipV) -> ChipV {
    push_inputs_from(c, c.input, 0)
}

/// Gate `i` depends on gate `j`: some wire runs from an output pin
/// of `j` to an input pin of `i`.
pub open spec fn dep_on(c: ChipV, i: int, j: int) -> bool {
    exists|k: int|
        0 <= k < c.connections.len() && output_ids(c.gates[j]).contains(
            (#[trigger] c.connections[k]).from,
        ) && input_ids(c.gates[i]).contains(c.connections[k].to)
}

/// Gate `i` is ready to be evaluated: not yet ordered, and every
/// gate it depends on already is.
pub open spec fn ready(c: ChipV, done: Seq<usize>, i: usize) -> bool {
    &&& (i as int) < c.gates.len()
    &&& !done.contains(i)
    &&& forall|j: int|
        0 <= j < c.gates.len() && dep_on(c, i as int, j) ==> done.contains(
            #[trigger] (j as usize),
        )
}

/// The least ready gate index at or after `i`, if any.
pub open spec fn first_ready_from(c: ChipV, done: Seq<usize>, i: int) -> Option<usize>
    decreases c.gates.len() - i,
{
    if i < 0 || i >= c.gates.len() {
        None
    } else if ready(c, done, i as usize) {
        Some(i as usize)
    } else {
        first_ready_from(c, done, i + 1)
    }
}

/// The evaluation order, grown one ready gate at a time: while fuel
/// remains and some gate is ready, the least ready index is
/// appended.
pub open spec fn order_rec(c: ChipV, done: Seq<usize>, fuel: nat) -> Seq<usize>
    decreases fuel,
{
    if fuel == 0 {
        done
    } else {
        match first_ready_from(c, done, 0) {
            None => done,
            Some(i) => order_rec(c, done.push(i), (fuel - 1) as nat),
        }
    }
}

/// The dependency order of the chip's gates: every gate appears
/// exactly once when the dependency graph is acyclic; fewer appear
/// when it has a cycle.
pub open spec fn topo(c: ChipV) -> Seq<usize> {
    order_rec(c, Seq::empty(), c.gates.len() as nat)
}

/// The reading a finished pass returns: the chip's first shell
/// output pin's value, `false` while it is undefined or the chip
/// has no shell output.
pub open spec fn primary_out(c: ChipV) -> bool {
    if c.output.len() > 0 {
        c.output[0].val == Some(true)
    } else {
        false
    }
}

/// Delivery of one evaluated gate's outputs, pin by pin from index
/// `t` of `outs`: each output pin's current value runs along the
/// chip's wiring.
pub open spec fn propagate_outputs_from(c: ChipV, i: int, outs: Seq<usize>, t: int) -> ChipV
    decreases outs.len() - t,
{
    if t < 0 || t >= outs.len() || !(0 <= i < c.gates.len()) {
        c
    } else {
        let v = pin_val_or_none(c.gates[i], outs[t]);
        propagate_outputs_from(
            propagate_from_wire(c, c.connections, outs[t], v, 0),
            i,
            outs,
            t + 1,
        )
    }
}

/// One gate's strict evaluation: that gate after the step, and the
/// value computed or the error met.
///
/// AND and NOT compute from their input pins, failing with
/// [`CircuitError::UndefinedInput`] when a required input carries no
/// value, and write the result into their output pin. A source is a
/// no-op returning its current output. An output sink reads its
/// input, failing likewise when it is undefined. An embedded chip
/// runs a full simulation pass.
pub open spec fn eval_gate_v(g: GateV) -> (GateV, Result<bool, CircuitError>)
    decreases gate_depth(g), 0nat, 0int,
{
    match g {
        GateV::And(x) => match (x.a.val, x.b.val) {
            (Some(p), Some(q)) => (
                GateV::And(AndGate { out: Pin { val: Some(p && q), ..x.out }, ..x }),
                Ok(p && q),
            ),
            _ => (g, Err(CircuitError::UndefinedInput)),
        },
        GateV::Not(x) => match x.a.val {
            Some(p) => (
                GateV::Not(NotGate { out: Pin { val: Some(!p), ..x.out }, ..x }),
                Ok(!p),
            ),
            None => (g, Err(CircuitError::UndefinedInput)),
        },
        GateV::Source(x) => (g, Ok(x.out.val == Some(true))),
        GateV::Output(x) => match x.a.val {
            Some(p) => (g, Ok(p)),
            None => (g, Err(CircuitError::UndefinedInput)),
        },
        GateV::Chip(inner) => {
            let (c1, rr) = sim_chip_v(inner, gates_depth(inner.gates));
            (GateV::Chip(c1), rr)
        },
    }
}

/// The evaluation fold from position `k` of the order: evaluate the
/// gate, stop at its error if it fails, else deliver its outputs
/// and go on.
pub open spec fn run_gates_v(c: ChipV, ord: Seq<usize>, k: int, d: nat) -> (ChipV, Result<
    (),
    CircuitError,
>)
    decreases d, 1nat, ord.len() - k,
{
    if k < 0 || k >= ord.len() {
        (c, Ok(()))
    } else {
        let i = ord[k] as int;
        if !(i < c.gates.len()) || gate_depth(c.gates[i]) > d {
            (c, Err(CircuitError::UnknownGate))
        } else {
            let (g2, rb) = eval_gate_v(c.gates[i]);
            let c2 = ChipV { gates: c.gates.update(i, g2), ..c };
            match rb {
                Err(e) => (c2, Err(e)),
                Ok(_) => {
                    let c3 = propagate_outputs_from(c2, i, output_ids(g2), 0);
                    run_gates_v(c3, ord, k + 1, d)
                },
            }
        }
    }
}

/// A full simulation pass at depth budget `d`: push the shell
/// inputs, order the gates, reject a cyclic dependency graph, then
/// run the order; on success the primary output reading is
/// returned.
pub open spec fn sim_chip_v(c: ChipV, d: nat) -> (ChipV, Result<bool, CircuitError>)
    decreases d, 3nat, 0int,
{
    let c0 = push_shell_inputs(c);
    let ord = topo(c0);
    if ord.len() != c0.gates.len() {
        (c0, Err(CircuitError::CyclicCircuit))
    } else {
        let (c1, rr) = run_gates_v(c0, ord, 0, d);
        match rr {
            Err(e) => (c1, Err(e)),
            Ok(_) => (c1, Ok(primary_out(c1))),
        }
    }
}

/// A full simulation pass of a chip: the chip afterwards, and the
/// primary output reading or the error that aborted the pass.
pub open spec fn sim_chip(c: ChipV) -> (ChipV, Result<bool, CircuitError>) {
    sim_chip_v(c, gates_depth(c.gates))
}

/// Propagation writes gate pins and shell output pins only: the
/// chip's id, wiring, shell input pins and gate count are left as
/// they stand.
pub proof fn lemma_propagate_frame(c: ChipV, ws: Seq<Wire>, pid: usize, v: Option<bool>, k: int)
    ensures
        propagate_from_wire(c, ws, pid, v, k).id == c.id,
        propagate_from_wire(c, ws, pid, v, k).connections == c.connections,
        propagate_from_wire(c, ws, pid, v, k).input == c.input,
        propagate_from_wire(c, ws, pid, v, k).gates.len() == c.gates.len(),
        propagate_from_wire(c, ws, pid, v, k).output.len() == c.output.len(),
    decreases ws.len() - k,
{
    if k < 0 || k >= ws.len() {
    } else if ws[k].from == pid {
        let c2 = deliver(c, ws[k].to, v);
        crate::view::lemma_find_pin_ix(c.output, ws[k].to);
        lemma_propagate_frame(c2, ws, pid, v, k + 1);
    } else {
        lemma_propagate_frame(c, ws, pid, v, k + 1);
    }
}

/// The value of a gate's shell-level pin with the given id, or
/// `None` when it owns no such pin.
#[verifier::loop_isolation(false)]
fn get_pin_val(g: &Gate, pid: usize) -> (r: Option<bool>)
    ensures
        r == pin_val_or_none(g@, pid),
{
    match g {
        Gate::And(x) => if pid == x.a.id {
            x.a.val
        } else if pid == x.b.id {
            x.b.val
        } else if pid == x.out.id {
            x.out.val
        } else {
            None
        },
        Gate::Not(x) => if pid == x.a.id {
            x.a.val
        } else if pid == x.out.id {
            x.out.val
        } else {
            None
        },
        Gate::Source(x) => if pid == x.out.id {
            x.out.val
        } else {
            None
        },
        Gate::Output(x) => if pid == x.a.id {
            x.a.val
        } else {
            None
        },
        Gate::Chip(c) => {
            proof {
                assert(g@ == GateV::Chip(crate::view::chip_view(*c)));
                crate::view::lemma_find_pin_ix(c.input@, pid);
                crate::view::lemma_find_pin_ix(c.output@, pid);
            }
            let n = c.input.len();
            let mut i: usize = 0;
            while i < n
                invariant
                    i <= n,
                    n == c.input.len(),
                    forall|k: int| 0 <= k < i ==> c.input@[k].id != pid,
                decreases n - i,
            {
                if c.input[i].id == pid {
                    proof {
                        crate::view::lemma_find_pin_ix(c.input@, pid);
                        assert(find_pin_ix(c.input@, pid) == i as int);
                    }
                    return c.input[i].val;
                }
                i = i + 1;
            }
            let m = c.output.len();
            let mut j: usize = 0;
            while j < m
                invariant
                    j <= m,
                    m == c.output.len(),
                    forall|k: int| 0 <= k < c.input@.len() ==> c.input@[k].id != pid,
                    forall|k: int| 0 <= k < j ==> c.output@[k].id != pid,
                decreases m - j,
            {
                if c.output[j].id == pid {
                    proof {
                        crate::view::lemma_find_pin_ix(c.input@, pid);
                        crate::view::lemma_find_pin_ix(c.output@, pid);
                        assert(find_pin_ix(c.input@, pid) == -1);
                        assert(find_pin_ix(c.output@, pid) == j as int);
                    }
                    return c.output[j].val;
                }
                j = j + 1;
            }
            proof {
                crate::view::lemma_find_pin_ix(c.input@, pid);
                crate::view::lemma_find_pin_ix(c.output@, pid);
            }
            None
        },
    }
}

/// Delivers a value to the destination pin id: every gate whose
/// input list carries it takes the value; failing that, the first
/// matching shell output pin takes it.
#[verifier::loop_isolation(false)]
fn deliver_mut(c: &mut Chip, pid: usize, v: Option<bool>)
    ensures
        final(c)@ == deliver(old(c)@, pid, v),
{
    proof {
        crate::view::lemma_gates_view(c.gates@);
    }
    let ghost oldv = c@;
    let n = c.gates.len();
    let mut i: usize = 0;
    let mut hit = false;
    while i < n
        invariant
            i <= n,
            n == c.gates.len(),
            c.id == old(c).id,
            c.connections@ == oldv.connections,
            c.input@ == oldv.input,
            c.output@ == oldv.output,
            oldv == old(c)@,
            oldv.gates.len() == n,
            forall|k: int| i <= k < n ==> c@.gates[k] == oldv.gates[k],
            forall|k: int|
                0 <= k < i ==> c@.gates[k] == (if input_ids(#[trigger] oldv.gates[k]).contains(
                    pid,
                ) {
                    gv_set_pin(oldv.gates[k], pid, v)
                } else {
                    oldv.gates[k]
                }),
            hit <==> (exists|k: int|
                0 <= k < i && (#[trigger] input_ids(oldv.gates[k])).contains(pid)),
        decreases n - i,
    {
        proof {
            crate::view::lemma_gates_view(c.gates@);
            assert(c@.gates[i as int] == gate_view(c.gates@[i as int]));
        }
        let ins = c.gates[i].input();
        if contains_id(&ins, pid) {
            let ghost prev = c.gates@;
            let g = &mut c.gates[i];
            proof {
                assert(gate_view(*g) == oldv.gates[i as int]);
            }
            let _ = g.set_pin(pid, v);
            proof {
                crate::view::lemma_gates_view_update(prev, i as int, c.gates@[i as int]);
                assert(c@.gates =~= gates_view(prev).update(
                    i as int,
                    gv_set_pin(oldv.gates[i as int], pid, v),
                ));
            }
            hit = true;
        }
        i = i + 1;
    }
    proof {
        crate::view::lemma_gates_view(c.gates@);
        let dg = deliver(oldv, pid, v).gates;
        assert(dg.len() == n);
        assert forall|k: int| 0 <= k < n implies c@.gates[k] == dg[k] by {
            assert(dg[k] == (if input_ids(oldv.gates[k]).contains(pid) {
                gv_set_pin(oldv.gates[k], pid, v)
            } else {
                oldv.gates[k]
            }));
        }
        assert(c@.gates =~= dg);
    }
    if !hit {
        proof {
            crate::view::lemma_find_pin_ix(c.output@, pid);
        }
        let m = c.output.len();
        let mut j: usize = 0;
        while j < m
            invariant
                j <= m,
                m == c.output.len(),
                c.id == old(c).id,
                c.connections@ == oldv.connections,
                c.input@ == oldv.input,
                c.output@ == oldv.output,
                oldv == old(c)@,
                forall|k: int| 0 <= k < j ==> c.output@[k].id != pid,
                c@.gates == deliver(oldv, pid, v).gates,
                !(exists|k: int|
                    0 <= k < oldv.gates.len() && (#[trigger] input_ids(oldv.gates[k])).contains(
                        pid,
                    )),
            decreases m - j,
        {
            if c.output[j].id == pid {
                proof {
                    crate::view::lemma_find_pin_ix(c.output@, pid);
                    assert(find_pin_ix(c.output@, pid) == j as int);
                }
                let elem = &mut c.output[j];
                elem.val = v;
                proof {
                    crate::view::lemma_gates_view(c.gates@);
                    assert(c.output@ =~= set_first_pin(oldv.output, pid, v));
                    assert(c@ =~= deliver(oldv, pid, v)) by {
                        assert(c@.gates =~= deliver(oldv, pid, v).gates);
                    }
                }
                return ;
            }
            j = j + 1;
        }
        proof {
            crate::view::lemma_find_pin_ix(c.output@, pid);
            assert(find_pin_ix(oldv.output, pid) == -1);
        }
    }
    proof {
        crate::view::lemma_gates_view(c.gates@);
        assert(c@.gates =~= deliver(oldv, pid, v).gates);
        assert(c@ =~= deliver(oldv, pid, v));
    }
}

/// Propagates a driving pin's current value along every wire that
/// leaves it, in wiring order.
#[verifier::loop_isolation(false)]
fn propagate_mut(c: &mut Chip, pid: usize, v: Option<bool>)
    ensures
        final(c)@ == propagate_from_wire(old(c)@, old(c)@.connections, pid, v, 0),
{
    let ghost oldv = c@;
    let ghost ws = oldv.connections;
    let n = c.connections.len();
    let mut k: usize = 0;
    while k < n
        invariant
            k <= n,
            n == ws.len(),
            c.connections@ == ws,
            propagate_from_wire(c@, ws, pid, v, k as int) == propagate_from_wire(
                oldv,
                ws,
                pid,
                v,
                0,
            ),
        decreases n - k,
    {
        let w = c.connections[k];
        if w.from == pid {
            deliver_mut(c, w.to, v);
            proof {
                assert(c.connections@ == ws);
            }
        }
        k = k + 1;
    }
}

/// What a found ready index satisfies: it is ready, and no smaller
/// index at or after the start is.
pub proof fn lemma_first_ready_props(c: ChipV, done: Seq<usize>, i: int)
    requires
        c.gates.len() <= usize::MAX,
    ensures
        match first_ready_from(c, done, i) {
            Some(x) => i <= (x as int) < c.gates.len() && ready(c, done, x),
            None => true,
        },
    decreases c.gates.len() - i,
{
    if i < 0 || i >= c.gates.len() {
    } else if ready(c, done, i as usize) {
    } else {
        lemma_first_ready_props(c, done, i + 1);
    }
}

/// Every index the evaluation order holds is a gate index, provided
/// the indices it started from are.
pub proof fn lemma_order_rec_range(c: ChipV, done: Seq<usize>, fuel: nat)
    requires
        c.gates.len() <= usize::MAX,
        forall|x: int| 0 <= x < done.len() ==> (#[trigger] done[x]) < c.gates.len(),
    ensures
        forall|x: int|
            0 <= x < order_rec(c, done, fuel).len() ==> (#[trigger] order_rec(c, done, fuel)[x])
                < c.gates.len(),
    decreases fuel,
{
    if fuel > 0 {
        match first_ready_from(c, done, 0) {
            None => {
                assert(order_rec(c, done, fuel) == done);
            },
            Some(i) => {
                lemma_first_ready_props(c, done, 0);
                assert(forall|x: int|
                    0 <= x < done.push(i).len() ==> (#[trigger] done.push(i)[x])
                        < c.gates.len());
                lemma_order_rec_range(c, done.push(i), (fuel - 1) as nat);
                assert(order_rec(c, done, fuel) == order_rec(c, done.push(i), (fuel - 1) as nat));
            },
        }
    } else {
        assert(order_rec(c, done, fuel) == done);
    }
}

/// Whether gate `i` depends on gate `j` through some wire.
#[verifier::loop_isolation(false)]
fn depends_on(c: &Chip, i: usize, j: usize) -> (r: bool)
    requires
        i < c.gates@.len(),
        j < c.gates@.len(),
    ensures
        r == dep_on(c@, i as int, j as int),
{
    proof {
        crate::view::lemma_gates_view(c.gates@);
    }
    let outs = c.gates[j].output();
    let ins = c.gates[i].input();
    let n = c.connections.len();
    let mut k: usize = 0;
    while k < n
        invariant
            k <= n,
            forall|k2: int|
                0 <= k2 < k ==> !(output_ids(c@.gates[j as int]).contains(
                    (#[trigger] c@.connections[k2]).from,
                ) && input_ids(c@.gates[i as int]).contains(c@.connections[k2].to)),
        decreases n - k,
    {
        let w = c.connections[k];
        if contains_id(&outs, w.from) && contains_id(&ins, w.to) {
            proof {
                assert(c@.connections[k as int] == w);
                assert(output_ids(c@.gates[j as int]).contains(w.from));
                assert(input_ids(c@.gates[i as int]).contains(w.to));
            }
            return true;
        }
        k = k + 1;
    }
    false
}

/// Whether gate `i` is ready: not yet in `done`, every dependency
/// in `done`.
#[verifier::loop_isolation(false)]
fn is_ready(c: &Chip, done: &Vec<usize>, i: usize) -> (r: bool)
    requires
        i < c.gates@.len(),
    ensures
        r == ready(c@, done@, i),
{
    proof {
        crate::view::lemma_gates_view(c.gates@);
    }
    if contains_id(done, i) {
        return false;
    }
    let n = c.gates.len();
    let mut j: usize = 0;
    while j < n
        invariant
            j <= n,
            forall|j2: int|
                0 <= j2 < j ==> (dep_on(c@, i as int, j2) ==> done@.contains(
                    #[trigger] (j2 as usize),
                )),
        decreases n - j,
    {
        if depends_on(c, i, j) {
            if !contains_id(done, j) {
                proof {
                    if ready(c@, done@, i) {
                        assert(done@.contains(((j as int) as usize)));
                    }
                }
                return false;
            }
        }
        j = j + 1;
    }
    proof {
        assert forall|j2: int|
            0 <= j2 < c@.gates.len() && dep_on(c@, i as int, j2) implies done@.contains(
            #[trigger] (j2 as usize),
        ) by {
            assert(dep_on(c@, i as int, (j2 as usize) as int));
        }
    }
    true
}

/// The least ready gate index, if any gate is still ready.
#[verifier::loop_isolation(false)]
fn find_ready(c: &Chip, done: &Vec<usize>) -> (r: Option<usize>)
    ensures
        r == first_ready_from(c@, done@, 0),
{
    proof {
        crate::view::lemma_gates_view(c.gates@);
    }
    let n = c.gates.len();
    let mut i: usize = 0;
    while i < n
        invariant
            i <= n,
            first_ready_from(c@, done@, 0) == first_ready_from(c@, done@, i as int),
        decreases n - i,
    {
        if is_ready(c, done, i) {
            return Some(i);
        }
        i = i + 1;
    }
    None
}

/// The dependency order of the chip's gates, as `topo` defines it:
/// ready gates are appended least index first until none is left.
#[verifier::loop_isolation(false)]
fn topo_exec(c: &Chip) -> (r: Vec<usize>)
    ensures
        r@ == topo(c@),
{
    proof {
        crate::view::lemma_gates_view(c.gates@);
    }
    let n = c.gates.len();
    let mut fuel = n;
    let mut done: Vec<usize> = Vec::new();
    proof {
        assert(done@ =~= Seq::<usize>::empty());
    }
    while fuel > 0
        invariant
            fuel <= n,
            order_rec(c@, done@, fuel as nat) == topo(c@),
        decreases fuel,
    {
        match find_ready(c, &done) {
            Some(i) => {
                done.push(i);
                fuel = fuel - 1;
            },
            None => {
                return done;
            },
        }
    }
    done
}

/// Pushes every shell input pin's value along the wiring: the first
/// phase of a simulation pass.
#[verifier::loop_isolation(false)]
fn push_inputs_mut(c: &mut Chip)
    ensures
        final(c)@ == push_shell_inputs(old(c)@),
{
    let ghost oldv = c@;
    let ghost ins = oldv.input;
    let n = c.input.len();
    let mut j: usize = 0;
    while j < n
        invariant
            j <= n,
            n == ins.len(),
            c.input@ == ins,
            c.connections@ == oldv.connections,
            push_inputs_from(c@, ins, j as int) == push_inputs_from(oldv, ins, 0),
        decreases n - j,
    {
        let p = c.input[j];
        proof {
            lemma_propagate_frame(c@, c@.connections, p.id, p.val, 0);
        }
        propagate_mut(c, p.id, p.val);
        j = j + 1;
    }
}

/// One gate's strict evaluation, executably: computes exactly
/// `eval_gate_v` of its argument.
#[verifier::loop_isolation(false)]
fn eval_gate_exec(g: Gate) -> (res: (Gate, Result<bool, CircuitError>))
    ensures
        res.0@ == eval_gate_v(g@).0,
        res.1 == eval_gate_v(g@).1,
    decreases gate_depth(g@), 0nat, 0int,
{
    match g {
        Gate::And(mut x) => {
            let r = x.evaluate();
            (Gate::And(x), r)
        },
        Gate::Not(mut x) => {
            let r = x.evaluate();
            (Gate::Not(x), r)
        },
        Gate::Source(x) => {
            let r = x.evaluate();
            (Gate::Source(x), Ok(r))
        },
        Gate::Output(x) => {
            let r = x.evaluate();
            (Gate::Output(x), r)
        },
        Gate::Chip(inner) => {
            proof {
                assert(g@ == GateV::Chip(inner@));
                assert(gate_depth(g@) == 1 + gates_depth(inner@.gates));
            }
            let (c2, r) = sim_run_exec(inner);
            (Gate::Chip(c2), r)
        },
    }
}

/// A full simulation pass, executably: computes exactly `sim_chip`
/// of the chip.
#[verifier::loop_isolation(false)]
fn sim_run_exec(chip_in: Chip) -> (res: (Chip, Result<bool, CircuitError>))
    ensures
        res.0@ == sim_chip(chip_in@).0,
        res.1 == sim_chip(chip_in@).1,
    decreases gates_depth(chip_in@.gates), 3nat, 0int,
{
    let ghost origv = chip_in@;
    let ghost d = gates_depth(origv.gates);
    let mut c = chip_in;
    push_inputs_mut(&mut c);
    let ghost c0v = c@;
    proof {
        crate::shape::lemma_push_inputs_shape(origv, origv.input, 0);
        crate::shape::lemma_shape_gates_depth(origv.gates, c0v.gates);
        crate::view::lemma_gates_view(c.gates@);
    }
    let ord = topo_exec(&c);
    if ord.len() != c.gates.len() {
        return (c, Err(CircuitError::CyclicCircuit));
    }
    proof {
        lemma_order_rec_range(c0v, Seq::empty(), c0v.gates.len() as nat);
        crate::shape::lemma_shape_refl_c(c0v);
    }
    let n_ord = ord.len();
    let mut k: usize = 0;
    while k < n_ord
        invariant
            k <= n_ord,
            n_ord == ord@.len(),
            ord@ == topo(c0v),
            ord@.len() == c0v.gates.len(),
            forall|x: int| 0 <= x < ord@.len() ==> (#[trigger] ord@[x]) < c0v.gates.len(),
            crate::shape::same_shape_c(c0v, c@),
            run_gates_v(c@, ord@, k as int, d) == run_gates_v(c0v, ord@, 0, d),
            d == gates_depth(origv.gates),
            d == gates_depth(c0v.gates),
            c0v == push_shell_inputs(origv),
        decreases n_ord - k,
    {
        let i = ord[k];
        let ghost pre = c@;
        proof {
            crate::view::lemma_gates_view(c.gates@);
            assert((i as int) < pre.gates.len());
            crate::shape::lemma_shape_depth_g(c0v.gates[i as int], pre.gates[i as int]);
            crate::view::lemma_gates_depth_le(c0v.gates, i as int);
            assert(gate_depth(pre.gates[i as int]) <= d);
        }
        let ghost prev_gates = c.gates@;
        let g = c.gates.remove(i);
        proof {
            assert(g@ == pre.gates[i as int]);
        }
        let (g2, rb) = eval_gate_exec(g);
        let outs = g2.output();
        c.gates.insert(i, g2);
        proof {
            assert(c.gates@ =~= prev_gates.update(i as int, g2));
            crate::view::lemma_gates_view_update(prev_gates, i as int, g2);
            assert(c@ == (ChipV { gates: pre.gates.update(i as int, g2@), ..pre }));
            assert(g2@ == eval_gate_v(pre.gates[i as int]).0);
            assert(rb == eval_gate_v(pre.gates[i as int]).1);
            crate::shape::lemma_eval_shape(pre.gates[i as int]);
            assert forall|x: int| 0 <= x < pre.gates.len() implies crate::shape::same_shape_g(
                #[trigger] pre.gates[x],
                c@.gates[x],
            ) by {
                if x != i as int {
                    crate::shape::lemma_shape_refl_g(pre.gates[x]);
                }
            }
            assert(crate::shape::same_shape_c(pre, c@));
            crate::shape::lemma_shape_trans_c(c0v, pre, c@);
        }
        if let Err(e) = rb {
            proof {
                assert(run_gates_v(pre, ord@, k as int, d) == (c@, Err::<(), CircuitError>(e)));
            }
            return (c, Err(e));
        }
        let ghost c2v = c@;
        proof {
            assert(run_gates_v(pre, ord@, k as int, d) == run_gates_v(
                propagate_outputs_from(c2v, i as int, output_ids(g2@), 0),
                ord@,
                k as int + 1,
                d,
            ));
            crate::shape::lemma_shape_refl_c(c2v);
        }
        let n_outs = outs.len();
        let mut t: usize = 0;
        while t < n_outs
            invariant
                t <= n_outs,
                n_outs == outs@.len(),
                outs@ == output_ids(g2@),
                propagate_outputs_from(c@, i as int, outs@, t as int) == propagate_outputs_from(
                    c2v,
                    i as int,
                    outs@,
                    0,
                ),
                crate::shape::same_shape_c(c2v, c@),
                (i as int) < c2v.gates.len(),
            decreases n_outs - t,
        {
            proof {
                crate::view::lemma_gates_view(c.gates@);
            }
            let ghost mid = c@;
            let v = get_pin_val(&c.gates[i], outs[t]);
            proof {
                assert(v == pin_val_or_none(mid.gates[i as int], outs@[t as int]));
                crate::shape::lemma_propagate_shape(mid, mid.connections, outs@[t as int], v, 0);
            }
            propagate_mut(&mut c, outs[t], v);
            proof {
                crate::shape::lemma_shape_trans_c(c2v, mid, c@);
                assert(propagate_outputs_from(mid, i as int, outs@, t as int)
                    == propagate_outputs_from(c@, i as int, outs@, t as int + 1));
            }
            t = t + 1;
        }
        proof {
            assert(c@ == propagate_outputs_from(c2v, i as int, outs@, 0));
            assert(run_gates_v(pre, ord@, k as int, d) == run_gates_v(c@, ord@, k as int + 1, d));
            crate::shape::lemma_shape_trans_c(c0v, c2v, c@);
        }
        k = k + 1;
    }
    proof {
        assert(run_gates_v(c@, ord@, n_ord as int, d) == (c@, Ok::<(), CircuitError>(())));
        assert(run_gates_v(c0v, ord@, 0, d) == (c@, Ok::<(), CircuitError>(())));
    }
    let b = if c.output.len() > 0 {
        match c.output[0].val {
            Some(v) => v,
            None => false,
        }
    } else {
        false
    };
    proof {
        assert(b == primary_out(c@));
    }
    (c, Ok(b))
}

impl Gate {
    /// Evaluates this gate strictly, as `eval_gate_v` defines it:
    /// the computed value is returned and written into its
    /// output pin, and a gate whose required input pin carries no
    /// value fails with [`CircuitError::UndefinedInput`], unchanged.
    /// Evaluating an embedded chip runs a full simulation pass on
    /// it.
    pub fn evaluate(&mut self) -> (r: Result<bool, CircuitError>)
        ensures
            final(self)@ == eval_gate_v(old(self)@).0,
            r == eval_gate_v(old(self)@).1,
    {
        let mut tmp = Gate::Source(
            crate::gate::SourceGate {
                id: 0,
                out: Pin { id: 0, kind: crate::pin::PinType::GateOutput, val: None },
            },
        );
        core::mem::swap(self, &mut tmp);
        let (g2, r) = eval_gate_exec(tmp);
        *self = g2;
        r
    }
}

impl Chip {
    /// Runs a full simulation pass, as `sim_chip` defines it: shell
    /// input values are pushed along the wiring, the gates are
    /// evaluated in dependency order with their outputs delivered
    /// onward, and the primary output reading is returned. A cyclic
    /// dependency graph is rejected with
    /// [`CircuitError::CyclicCircuit`]; a gate met with an undefined
    /// required input aborts the pass with
    /// [`CircuitError::UndefinedInput`]. The pass moves pin values
    /// only: the chip's shape — and with it well-formedness — is
    /// preserved.
    pub fn simulate(&mut self) -> (r: Result<bool, CircuitError>)
        ensures
            final(self)@ == sim_chip(old(self)@).0,
            r == sim_chip(old(self)@).1,
            crate::shape::same_shape_c(old(self)@, final(self)@),
            crate::view::wf_chip(old(self)@) ==> crate::view::wf_chip(final(self)@),
    {
        let mut tmp = Chip::new(0);
        core::mem::swap(self, &mut tmp);
        let (c2, r) = sim_run_exec(tmp);
        *self = c2;
        proof {
            crate::shape::lemma_sim_shape(old(self)@, gates_depth(old(self)@.gates));
            if crate::view::wf_chip(old(self)@) {
                crate::shape::lemma_wf_shape_c(old(self)@, sim_chip(old(self)@).0);
            }
        }
        r
    }
}

} // verus!
