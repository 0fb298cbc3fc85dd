//! Deep copy and abstraction: rebuilding a chip under entirely
//! fresh identities.
//!
//! A copy is a deterministic function of the source chip and the
//! allocator's position: ids are drawn in a fixed order (chip, shell
//! inputs, shell outputs, then each gate with its pins), an id map
//! records every old pin id's replacement, and the wiring is
//! replayed through that map, skipping any edge whose endpoint has
//! no mapping. The executable operations are proved to compute
//! exactly these functions.

use vstd::prelude::*;
use crate::pin::{Pin, PinType};
use crate::circuit::{Wire, contains_id};
use crate::view::{
    ChipV, GateV, wires_after_connect, is_driver, is_dest, gate_ids_from, gate_ids_below,
    chip_ids_from, chip_ids_below, gv_id, input_ids, output_ids,
};
use crate::CircuitError;
use crate::gate::{AndGate, NotGate, SourceGate, OutputGate};
use crate::ids::IdAlloc;

verus! {

/// The replacement the id map holds for an old id: the most
/// recently recorded entry wins, as the last write to a key does.
pub open spec fn map_get(m: Seq<(usize, usize)>, k: usize) -> Option<usize>
    decreases m.len(),
{
    if m.len() == 0 {
        None
    } else if m.last().0 == k {
        Some(m.last().1)
    } else {
        map_get(m.drop_last(), k)
    }
}

/// The entries pairing each old pin's id with its replacement's id,
/// in pin order.
pub open spec fn zip_pin_ids(olds: Seq<Pin>, news: Seq<Pin>, j: int) -> Seq<(usize, usize)>
    decreases olds.len() - j,
{
    if j < 0 || j >= olds.len() || j >= news.len() {
        Seq::empty()
    } else {
        seq![(olds[j].id, news[j].id)] + zip_pin_ids(olds, news, j + 1)
    }
}

/// `cnt` fresh, undefined pins of one role, with consecutive ids
/// from `n` on.
pub open spec fn fresh_pins(n: usize, cnt: int, kind: PinType) -> Seq<Pin>
    decreases cnt,
{
    if cnt <= 0 {
        Seq::empty()
    } else {
        seq![Pin { id: n, kind, val: None }] + fresh_pins((n + 1) as usize, cnt - 1, kind)
    }
}

/// How many identities copying this gate draws: one for itself,
/// one per owned pin; for an embedded chip, the chip's own count.
pub open spec fn gate_id_cost(g: GateV) -> nat
    decreases g, 0int,
{
    match g {
        GateV::And(_) => 4,
        GateV::Not(_) => 3,
        GateV::Source(_) => 2,
        GateV::Output(_) => 2,
        GateV::Chip(c) => chip_id_cost(c),
    }
}

/// How many identities copying the gates from index `x` on draws.
pub open spec fn gates_cost_from(gs: Seq<GateV>, x: int) -> nat
    decreases gs, gs.len() - x,
{
    if x < 0 || x >= gs.len() {
        0
    } else {
        gate_id_cost(gs[x]) + gates_cost_from(gs, x + 1)
    }
}

/// How many identities copying this chip draws: one for the chip,
/// one per shell pin, and each gate's own count.
pub open spec fn chip_id_cost(c: ChipV) -> nat
    decreases c, 0int,
{
    1 + c.input.len() + c.output.len() + gates_cost_from(c.gates, 0)
}

/// The clone of one gate with fresh ids from `n` on: the new gate,
/// the allocator position afterwards, and the id map extended by
/// that gate's pin replacements (inputs first, then outputs; for an
/// embedded chip, its shell pins — its internals keep their own
/// private map, exactly as a copied chip does).
pub open spec fn clone_gate_spec(g: GateV, n: usize, m: Seq<(usize, usize)>) -> (
    GateV,
    usize,
    Seq<(usize, usize)>,
)
    decreases g, 0int,
{
    match g {
        GateV::And(x) => {
            let ng = AndGate {
                id: n,
                a: Pin { id: (n + 1) as usize, kind: PinType::GateInput, val: None },
                b: Pin { id: (n + 2) as usize, kind: PinType::GateInput, val: None },
                out: Pin { id: (n + 3) as usize, kind: PinType::GateOutput, val: None },
            };
            (
                GateV::And(ng),
                (n + 4) as usize,
                m + seq![(x.a.id, ng.a.id), (x.b.id, ng.b.id), (x.out.id, ng.out.id)],
            )
        },
        GateV::Not(x) => {
            let ng = NotGate {
                id: n,
                a: Pin { id: (n + 1) as usize, kind: PinType::GateInput, val: None },
                out: Pin { id: (n + 2) as usize, kind: PinType::GateOutput, val: None },
            };
            (GateV::Not(ng), (n + 3) as usize, m + seq![(x.a.id, ng.a.id), (x.out.id, ng.out.id)])
        },
        GateV::Source(x) => {
            let ng = SourceGate {
                id: n,
                out: Pin { id: (n + 1) as usize, kind: PinType::GateOutput, val: None },
            };
            (GateV::Source(ng), (n + 2) as usize, m + seq![(x.out.id, ng.out.id)])
        },
        GateV::Output(x) => {
            let ng = OutputGate {
                id: n,
                a: Pin { id: (n + 1) as usize, kind: PinType::GateInput, val: None },
            };
            (GateV::Output(ng), (n + 2) as usize, m + seq![(x.a.id, ng.a.id)])
        },
        GateV::Chip(inner) => {
            let (cc, n2) = copy_chip_spec(inner, n);
            (
                GateV::Chip(cc),
                n2,
                m + zip_pin_ids(inner.input, cc.input, 0) + zip_pin_ids(inner.output, cc.output, 0),
            )
        },
    }
}

/// The clones of the gates from index `x` on, threading the
/// allocator position and the id map through each.
pub open spec fn clone_gates_spec(gs: Seq<GateV>, x: int, n: usize, m: Seq<(usize, usize)>) -> (
    Seq<GateV>,
    usize,
    Seq<(usize, usize)>,
)
    decreases gs, gs.len() - x,
{
    if x < 0 || x >= gs.len() {
        (Seq::empty(), n, m)
    } else {
        let (g1, n1, m1) = clone_gate_spec(gs[x], n, m);
        let (rest, n2, m2) = clone_gates_spec(gs, x + 1, n1, m1);
        (seq![g1] + rest, n2, m2)
    }
}

/// The wiring replayed through the id map onto the new chip, edge
/// by edge from index `x` of the old wiring: an edge whose mapped
/// endpoints the new chip accepts is connected (removing any prior
/// driver of the destination); an edge with an unmapped endpoint is
/// skipped, never partially connected.
pub open spec fn replay_wires_spec(c: ChipV, ws: Seq<Wire>, m: Seq<(usize, usize)>, x: int) -> ChipV
    decreases ws.len() - x,
{
    if x < 0 || x >= ws.len() {
        c
    } else {
        let w = ws[x];
        match (map_get(m, w.from), map_get(m, w.to)) {
            (Some(nf), Some(nt)) => {
                let c2 = if is_driver(c, nf) && is_dest(c, nt) {
                    ChipV { connections: wires_after_connect(c.connections, nf, nt), ..c }
                } else {
                    c
                };
                replay_wires_spec(c2, ws, m, x + 1)
            },
            _ => replay_wires_spec(c, ws, m, x + 1),
        }
    }
}

/// The deep copy of a chip with fresh ids from `n` on, and the
/// allocator position afterwards: chip id first, then shell input
/// and output pins, then each gate in order, then the wiring
/// replayed through the id map the fresh pins and gates produced.
pub open spec fn copy_chip_spec(c: ChipV, n: usize) -> (ChipV, usize)
    decreases c, 0int,
{
    let nin = c.input.len() as int;
    let nout = c.output.len() as int;
    let ins = fresh_pins((n + 1) as usize, nin, PinType::ChipInput);
    let outs = fresh_pins((n + 1 + nin) as usize, nout, PinType::ChipOutput);
    let m0 = zip_pin_ids(c.input, ins, 0) + zip_pin_ids(c.output, outs, 0);
    let (gs, n2, m2) = clone_gates_spec(c.gates, 0, (n + 1 + nin + nout) as usize, m0);
    let base = ChipV { id: n, gates: gs, connections: Seq::empty(), input: ins, output: outs };
    (replay_wires_spec(base, c.connections, m2, 0), n2)
}

/// The index of the first gate carrying the given gate id, or -1 if
/// none does.
pub open spec fn find_gate_ix(gs: Seq<GateV>, gid: usize) -> int
    decreases gs.len(),
{
    if gs.len() == 0 {
        -1
    } else if gv_id(gs[0]) == gid {
        0
    } else {
        let r = find_gate_ix(gs.subrange(1, gs.len() as int), gid);
        if r == -1 {
            -1
        } else {
            r + 1
        }
    }
}

/// What `find_gate_ix` returns: -1 exactly when no gate carries the
/// id, else the first index that does.
pub proof fn lemma_find_gate_ix(gs: Seq<GateV>, gid: usize)
    ensures
        find_gate_ix(gs, gid) == -1 <==> (forall|j: int|
            0 <= j < gs.len() ==> gv_id(#[trigger] gs[j]) != gid),
        find_gate_ix(gs, gid) != -1 ==> {
            let r = find_gate_ix(gs, gid);
            &&& 0 <= r < gs.len()
            &&& gv_id(gs[r]) == gid
            &&& forall|j: int| 0 <= j < r ==> gv_id(#[trigger] gs[j]) != gid
        },
    decreases gs.len(),
{
    if gs.len() > 0 && gv_id(gs[0]) != gid {
        let t = gs.subrange(1, gs.len() as int);
        lemma_find_gate_ix(t, gid);
        assert(forall|j: int| 0 <= j < t.len() ==> t[j] == gs[j + 1]);
        let rt = find_gate_ix(t, gid);
        if rt == -1 {
            assert forall|j: int| 0 <= j < gs.len() implies gv_id(#[trigger] gs[j]) != gid by {
                if j > 0 {
                    assert(gs[j] == t[j - 1]);
                }
            }
        } else {
            assert(gs[rt + 1] == t[rt]);
            assert forall|j: int| 0 <= j < rt + 1 implies gv_id(#[trigger] gs[j]) != gid by {
                if j > 0 {
                    assert(gs[j] == t[j - 1]);
                }
            }
        }
    }
}

/// The boundary pin a designated gate contributes: the first of its
/// output pins (for a designated input gate) or of its input pins
/// (for a designated output gate). A gate id the chip does not hold
/// is [`CircuitError::UnknownGate`]; a designated gate without a pin
/// in the needed role is [`CircuitError::UnknownPin`].
pub open spec fn sel_pin_of(c: ChipV, gid: usize, want_out: bool) -> Result<usize, CircuitError> {
    let ix = find_gate_ix(c.gates, gid);
    if ix == -1 {
        Err(CircuitError::UnknownGate)
    } else {
        let ids = if want_out {
            output_ids(c.gates[ix])
        } else {
            input_ids(c.gates[ix])
        };
        if ids.len() == 0 {
            Err(CircuitError::UnknownPin)
        } else {
            Ok(ids[0])
        }
    }
}

/// The boundary pins of the designated gates from index `x` on, or
/// the first error met.
pub open spec fn sel_pins(c: ChipV, gids: Seq<usize>, x: int, want_out: bool) -> Result<
    Seq<usize>,
    CircuitError,
>
    decreases gids.len() - x,
{
    if x < 0 || x >= gids.len() {
        Ok(Seq::empty())
    } else {
        match sel_pin_of(c, gids[x], want_out) {
            Err(e) => Err(e),
            Ok(p) => match sel_pins(c, gids, x + 1, want_out) {
                Err(e) => Err(e),
                Ok(r) => Ok(seq![p] + r),
            },
        }
    }
}

/// The entries pairing each boundary pin with its fresh shell pin's
/// id, consecutive from `n` on.
pub open spec fn zip_shell_ids(pins: Seq<usize>, n: usize, j: int) -> Seq<(usize, usize)>
    decreases pins.len() - j,
{
    if j < 0 || j >= pins.len() {
        Seq::empty()
    } else {
        seq![(pins[j], (n + j) as usize)] + zip_shell_ids(pins, n, j + 1)
    }
}

/// How many identities cloning the gates from index `x` on draws,
/// counting only gates designated neither as inputs nor as outputs.
pub open spec fn sel_cost_from(gs: Seq<GateV>, x: int, skip_in: Seq<usize>, skip_out: Seq<
    usize,
>) -> nat
    decreases gs, gs.len() - x,
{
    if x < 0 || x >= gs.len() {
        0
    } else if skip_in.contains(gv_id(gs[x])) || skip_out.contains(gv_id(gs[x])) {
        sel_cost_from(gs, x + 1, skip_in, skip_out)
    } else {
        gate_id_cost(gs[x]) + sel_cost_from(gs, x + 1, skip_in, skip_out)
    }
}

/// The clones of the gates from index `x` on, skipping every gate
/// designated as an input or an output, threading the allocator
/// position and the id map through the rest.
pub open spec fn clone_sel_spec(
    gs: Seq<GateV>,
    x: int,
    n: usize,
    m: Seq<(usize, usize)>,
    skip_in: Seq<usize>,
    skip_out: Seq<usize>,
) -> (Seq<GateV>, usize, Seq<(usize, usize)>)
    decreases gs, gs.len() - x,
{
    if x < 0 || x >= gs.len() {
        (Seq::empty(), n, m)
    } else if skip_in.contains(gv_id(gs[x])) || skip_out.contains(gv_id(gs[x])) {
        clone_sel_spec(gs, x + 1, n, m, skip_in, skip_out)
    } else {
        let (g1, n1, m1) = clone_gate_spec(gs[x], n, m);
        let (rest, n2, m2) = clone_sel_spec(gs, x + 1, n1, m1, skip_in, skip_out);
        (seq![g1] + rest, n2, m2)
    }
}

/// The wiring replayed onto the template, edge by edge from index
/// `x` of the old wiring: an edge leaving a designated input pin
/// runs from the matching shell input; an edge among cloned gates
/// runs through the id map; an edge into a designated output pin
/// runs to the matching shell output; anything else is skipped.
pub open spec fn replay_abs_spec(
    c: ChipV,
    ws: Seq<Wire>,
    in_map: Seq<(usize, usize)>,
    id_map: Seq<(usize, usize)>,
    out_map: Seq<(usize, usize)>,
    x: int,
) -> ChipV
    decreases ws.len() - x,
{
    if x < 0 || x >= ws.len() {
        c
    } else {
        let w = ws[x];
        let c2 = match map_get(in_map, w.from) {
            Some(nf) => match map_get(id_map, w.to) {
                Some(nt) => connect_checked(c, nf, nt),
                None => c,
            },
            None => match map_get(id_map, w.from) {
                Some(nf) => match map_get(out_map, w.to) {
                    Some(nt) => connect_checked(c, nf, nt),
                    None => match map_get(id_map, w.to) {
                        Some(nt) => connect_checked(c, nf, nt),
                        None => c,
                    },
                },
                None => c,
            },
        };
        replay_abs_spec(c2, ws, in_map, id_map, out_map, x + 1)
    }
}

/// One wiring step onto a chip: the edge is added — removing any
/// prior driver of its destination — when the chip accepts both
/// endpoints, and dropped otherwise.
pub open spec fn connect_checked(c: ChipV, nf: usize, nt: usize) -> ChipV {
    if is_driver(c, nf) && is_dest(c, nt) {
        ChipV { connections: wires_after_connect(c.connections, nf, nt), ..c }
    } else {
        c
    }
}

/// How many identities the abstraction of a chip draws: the
/// template, one shell pin per designated gate, and each cloned
/// gate's own count.
pub open spec fn abs_id_cost(c: ChipV, ins: Seq<usize>, outs: Seq<usize>) -> nat {
    1 + ins.len() + outs.len() + sel_cost_from(c.gates, 0, ins, outs)
}

/// The abstraction of a sub-circuit into a reusable template with
/// fresh ids from `n` on, or the first error met while resolving
/// the designated gates. Shell input pins replace each designated
/// input gate's first output pin; shell output pins replace each
/// designated output gate's first input pin; the remaining gates
/// are cloned, and the wiring is replayed across the new boundary.
pub open spec fn abstract_spec(c: ChipV, ins: Seq<usize>, outs: Seq<usize>, n: usize) -> Result<
    (ChipV, usize),
    CircuitError,
> {
    match sel_pins(c, ins, 0, true) {
        Err(e) => Err(e),
        Ok(srcs) => match sel_pins(c, outs, 0, false) {
            Err(e) => Err(e),
            Ok(dsts) => {
                let sh_ins = fresh_pins((n + 1) as usize, ins.len() as int, PinType::ChipInput);
                let sh_outs = fresh_pins(
                    (n + 1 + ins.len()) as usize,
                    outs.len() as int,
                    PinType::ChipOutput,
                );
                let in_map = zip_shell_ids(srcs, (n + 1) as usize, 0);
                let out_map = zip_shell_ids(dsts, (n + 1 + ins.len()) as usize, 0);
                let (gs, n2, id_map) = clone_sel_spec(
                    c.gates,
                    0,
                    (n + 1 + ins.len() + outs.len()) as usize,
                    Seq::empty(),
                    ins,
                    outs,
                );
                let base = ChipV {
                    id: n,
                    gates: gs,
                    connections: Seq::empty(),
                    input: sh_ins,
                    output: sh_outs,
                };
                Ok((replay_abs_spec(base, c.connections, in_map, id_map, out_map, 0), n2))
            },
        },
    }
}

/// What `fresh_pins` builds: consecutive ids, the given role, no
/// values.
pub proof fn lemma_fresh_pins(n: usize, cnt: int, kind: PinType)
    requires
        n + cnt <= usize::MAX,
    ensures
        fresh_pins(n, cnt, kind).len() == (if cnt <= 0 {
            0int
        } else {
            cnt
        }),
        forall|j: int|
            0 <= j < fresh_pins(n, cnt, kind).len() ==> (#[trigger] fresh_pins(n, cnt, kind)[j])
                == (Pin { id: (n + j) as usize, kind, val: None }),
    decreases cnt,
{
    if cnt > 0 {
        lemma_fresh_pins((n + 1) as usize, cnt - 1, kind);
        let s = fresh_pins(n, cnt, kind);
        let t = fresh_pins((n + 1) as usize, cnt - 1, kind);
        assert forall|j: int| 0 <= j < s.len() implies (#[trigger] s[j]) == (Pin {
            id: (n + j) as usize,
            kind,
            val: None,
        }) by {
            if j > 0 {
                assert(s[j] == t[j - 1]);
            }
        }
    }
}

/// Replaying wires touches the wiring alone.
pub proof fn lemma_replay_frame(c: ChipV, ws: Seq<Wire>, m: Seq<(usize, usize)>, x: int)
    ensures
        replay_wires_spec(c, ws, m, x).id == c.id,
        replay_wires_spec(c, ws, m, x).gates == c.gates,
        replay_wires_spec(c, ws, m, x).input == c.input,
        replay_wires_spec(c, ws, m, x).output == c.output,
    decreases ws.len() - x,
{
    if x < 0 || x >= ws.len() {
    } else {
        let w = ws[x];
        match (map_get(m, w.from), map_get(m, w.to)) {
            (Some(nf), Some(nt)) => {
                let c2 = if is_driver(c, nf) && is_dest(c, nt) {
                    ChipV { connections: wires_after_connect(c.connections, nf, nt), ..c }
                } else {
                    c
                };
                lemma_replay_frame(c2, ws, m, x + 1);
            },
            _ => {
                lemma_replay_frame(c, ws, m, x + 1);
            },
        }
    }
}

/// What cloning one gate yields: it advances the allocator by
/// exactly that gate's id cost, and every identity of the clone lies
/// in the advanced-over range.
pub proof fn lemma_clone_gate_props(g: GateV, n: usize, m: Seq<(usize, usize)>)
    requires
        n + gate_id_cost(g) <= usize::MAX,
    ensures
        ({
            let (ng, n2, m2) = clone_gate_spec(g, n, m);
            &&& n2 == n + gate_id_cost(g)
            &&& n < n2
            &&& gate_ids_from(ng, n)
            &&& gate_ids_below(ng, n2)
        }),
    decreases g, 0int,
{
    match g {
        GateV::Chip(inner) => {
            lemma_copy_chip_props(inner, n);
        },
        _ => {},
    }
}

/// What cloning a run of gates yields: the allocator advances by
/// the total cost, and every clone's identities lie in the
/// advanced-over range.
pub proof fn lemma_clone_gates_props(gs: Seq<GateV>, x: int, n: usize, m: Seq<(usize, usize)>)
    requires
        n + gates_cost_from(gs, x) <= usize::MAX,
    ensures
        ({
            let (r, n2, m2) = clone_gates_spec(gs, x, n, m);
            &&& n2 == n + gates_cost_from(gs, x)
            &&& forall|y: int|
                0 <= y < r.len() ==> gate_ids_from(#[trigger] r[y], n) && gate_ids_below(r[y], n2)
        }),
    decreases gs, gs.len() - x,
{
    if x < 0 || x >= gs.len() {
    } else {
        let (g1, n1, m1) = clone_gate_spec(gs[x], n, m);
        lemma_clone_gate_props(gs[x], n, m);
        lemma_clone_gates_props(gs, x + 1, n1, m1);
        let (rest, n2, m2) = clone_gates_spec(gs, x + 1, n1, m1);
        let r = seq![g1] + rest;
        assert forall|y: int| 0 <= y < r.len() implies gate_ids_from(#[trigger] r[y], n)
            && gate_ids_below(r[y], n2) by {
            if y == 0 {
                assert(r[y] == g1);
                crate::view::lemma_gate_ids_below_mono(g1, n1, n2);
            } else {
                assert(r[y] == rest[y - 1]);
                crate::view::lemma_gate_ids_from_mono(rest[y - 1], n1, n);
            }
        }
    }
}

/// What a deep copy yields: the allocator advances by exactly the
/// chip's id cost, and every identity of the copy lies in the
/// advanced-over range — so the copy shares no identity with
/// anything whose identities lie below `n`.
pub proof fn lemma_copy_chip_props(c: ChipV, n: usize)
    requires
        n + chip_id_cost(c) <= usize::MAX,
    ensures
        ({
            let (cc, n2) = copy_chip_spec(c, n);
            &&& n2 == n + chip_id_cost(c)
            &&& n < n2
            &&& chip_ids_from(cc, n)
            &&& chip_ids_below(cc, n2)
        }),
    decreases c, 0int,
{
    let nin = c.input.len() as int;
    let nout = c.output.len() as int;
    let ins = fresh_pins((n + 1) as usize, nin, PinType::ChipInput);
    let outs = fresh_pins((n + 1 + nin) as usize, nout, PinType::ChipOutput);
    lemma_fresh_pins((n + 1) as usize, nin, PinType::ChipInput);
    lemma_fresh_pins((n + 1 + nin) as usize, nout, PinType::ChipOutput);
    let m0 = zip_pin_ids(c.input, ins, 0) + zip_pin_ids(c.output, outs, 0);
    let nshell = (n + 1 + nin + nout) as usize;
    lemma_clone_gates_props(c.gates, 0, nshell, m0);
    let (gs, n2, m2) = clone_gates_spec(c.gates, 0, nshell, m0);
    let base = ChipV { id: n, gates: gs, connections: Seq::empty(), input: ins, output: outs };
    lemma_replay_frame(base, c.connections, m2, 0);
    let (cc, _n2) = copy_chip_spec(c, n);
    assert forall|i: int| 0 <= i < cc.gates.len() implies gate_ids_from(
        #[trigger] cc.gates[i],
        n,
    ) by {
        crate::view::lemma_gate_ids_from_mono(gs[i], nshell, n);
    }
    assert(chip_ids_from(cc, n));
    assert(chip_ids_below(cc, n2));
}

/// What `zip_pin_ids` pairs, for pin runs of one length: the id of
/// each old pin with the id of its replacement.
pub proof fn lemma_zip_pin_ids(olds: Seq<Pin>, news: Seq<Pin>, j: int)
    requires
        0 <= j <= olds.len(),
        olds.len() == news.len(),
    ensures
        zip_pin_ids(olds, news, j).len() == olds.len() - j,
        forall|x: int|
            0 <= x < olds.len() - j ==> (#[trigger] zip_pin_ids(olds, news, j)[x]) == (
            olds[j + x].id,
            news[j + x].id,
            ),
    decreases olds.len() - j,
{
    if j < olds.len() {
        lemma_zip_pin_ids(olds, news, j + 1);
        let z = zip_pin_ids(olds, news, j);
        let t = zip_pin_ids(olds, news, j + 1);
        assert forall|x: int| 0 <= x < olds.len() - j implies (#[trigger] z[x]) == (
        olds[j + x].id,
        news[j + x].id,
        ) by {
            if x > 0 {
                assert(z[x] == t[x - 1]);
            }
        }
    }
}

/// The replacement the id map records for an old id, the most
/// recent entry winning, or `None` when it records none.
#[verifier::loop_isolation(false)]
pub fn map_lookup(m: &Vec<(usize, usize)>, k: usize) -> (r: Option<usize>)
    ensures
        r == map_get(m@, k),
{
    proof {
        assert(m@.subrange(0, m@.len() as int) =~= m@);
    }
    let mut i = m.len();
    while i > 0
        invariant
            i <= m.len(),
            map_get(m@, k) == map_get(m@.subrange(0, i as int), k),
        decreases i,
    {
        i = i - 1;
        let e = m[i];
        proof {
            let pre = m@.subrange(0, i as int + 1);
            assert(pre.drop_last() =~= m@.subrange(0, i as int));
            assert(pre.last() == e);
        }
        if e.0 == k {
            return Some(e.1);
        }
    }
    proof {
        assert(m@.subrange(0, 0) =~= Seq::<(usize, usize)>::empty());
    }
    None
}

impl crate::gate::Gate {
    /// Clones this gate under entirely fresh identities, recording
    /// in `id_map` the replacement of every pin id it exposes — for
    /// an embedded chip, a full deep copy whose shell pin
    /// replacements alone are recorded. The clone's pins start
    /// undefined. The result is exactly `clone_gate_spec` of the
    /// gate at the allocator's position.
    #[verifier::loop_isolation(false)]
    pub fn clone_with_new_ids(&self, alloc: &mut IdAlloc, id_map: &mut Vec<(usize, usize)>) -> (g:
        crate::gate::Gate)
        requires
            old(alloc).spec_next() + gate_id_cost(self@) <= usize::MAX,
        ensures
            g@ == clone_gate_spec(self@, old(alloc).spec_next(), old(id_map)@).0,
            final(alloc).spec_next() == clone_gate_spec(
                self@,
                old(alloc).spec_next(),
                old(id_map)@,
            ).1,
            final(id_map)@ == clone_gate_spec(self@, old(alloc).spec_next(), old(id_map)@).2,
            final(alloc).spec_next() == old(alloc).spec_next() + gate_id_cost(self@),
            gate_ids_from(g@, old(alloc).spec_next()),
            gate_ids_below(g@, final(alloc).spec_next()),
        decreases *self,
    {
        proof {
            lemma_clone_gate_props(self@, old(alloc).spec_next(), old(id_map)@);
        }
        match self {
            crate::gate::Gate::And(x) => {
                let id = alloc.next_id();
                let ng = AndGate::new(alloc, id);
                id_map.push((x.a.id, ng.a.id));
                id_map.push((x.b.id, ng.b.id));
                id_map.push((x.out.id, ng.out.id));
                proof {
                    assert(id_map@ =~= old(id_map)@ + seq![
                        (x.a.id, ng.a.id),
                        (x.b.id, ng.b.id),
                        (x.out.id, ng.out.id),
                    ]);
                }
                crate::gate::Gate::And(ng)
            },
            crate::gate::Gate::Not(x) => {
                let id = alloc.next_id();
                let ng = NotGate::new(alloc, id);
                id_map.push((x.a.id, ng.a.id));
                id_map.push((x.out.id, ng.out.id));
                proof {
                    assert(id_map@ =~= old(id_map)@ + seq![
                        (x.a.id, ng.a.id),
                        (x.out.id, ng.out.id),
                    ]);
                }
                crate::gate::Gate::Not(ng)
            },
            crate::gate::Gate::Source(x) => {
                let id = alloc.next_id();
                let ng = SourceGate::new(alloc, id);
                id_map.push((x.out.id, ng.out.id));
                proof {
                    assert(id_map@ =~= old(id_map)@ + seq![(x.out.id, ng.out.id)]);
                }
                crate::gate::Gate::Source(ng)
            },
            crate::gate::Gate::Output(x) => {
                let id = alloc.next_id();
                let ng = OutputGate::new(alloc, id);
                id_map.push((x.a.id, ng.a.id));
                proof {
                    assert(id_map@ =~= old(id_map)@ + seq![(x.a.id, ng.a.id)]);
                }
                crate::gate::Gate::Output(ng)
            },
            crate::gate::Gate::Chip(c) => {
                let cc = c.deep_copy(alloc);
                let ghost startm = id_map@;
                proof {
                    lemma_replay_frame_of_copy(c@, old(alloc).spec_next());
                    assert(cc@.input.len() == c@.input.len());
                    assert(cc@.output.len() == c@.output.len());
                    lemma_zip_pin_ids(c.input@, cc@.input, 0);
                    lemma_zip_pin_ids(c.output@, cc@.output, 0);
                }
                let nin = c.input.len();
                let mut j: usize = 0;
                while j < nin
                    invariant
                        j <= nin,
                        id_map@.len() == startm.len() + j,
                        forall|x: int| 0 <= x < startm.len() ==> id_map@[x] == startm[x],
                        forall|x: int|
                            0 <= x < j ==> id_map@[startm.len() + x] == (
                            c.input@[x].id,
                            cc@.input[x].id,
                            ),
                    decreases nin - j,
                {
                    id_map.push((c.input[j].id, cc.input[j].id));
                    proof {
                        assert(cc@.input[j as int] == cc.input@[j as int]);
                    }
                    j = j + 1;
                }
                proof {
                    assert(id_map@ =~= startm + zip_pin_ids(c.input@, cc@.input, 0));
                }
                let ghost midm = id_map@;
                let nout = c.output.len();
                let mut j2: usize = 0;
                while j2 < nout
                    invariant
                        j2 <= nout,
                        id_map@.len() == midm.len() + j2,
                        forall|x: int| 0 <= x < midm.len() ==> id_map@[x] == midm[x],
                        forall|x: int|
                            0 <= x < j2 ==> id_map@[midm.len() + x] == (
                            c.output@[x].id,
                            cc@.output[x].id,
                            ),
                    decreases nout - j2,
                {
                    id_map.push((c.output[j2].id, cc.output[j2].id));
                    proof {
                        assert(cc@.output[j2 as int] == cc.output@[j2 as int]);
                    }
                    j2 = j2 + 1;
                }
                proof {
                    assert(id_map@ =~= midm + zip_pin_ids(c.output@, cc@.output, 0));
                    assert(id_map@ =~= (startm + zip_pin_ids(c.input@, cc@.input, 0))
                        + zip_pin_ids(c.output@, cc@.output, 0));
                }
                crate::gate::Gate::Chip(cc)
            },
        }
    }
}

impl crate::circuit::Chip {
    /// Rebuilds this chip under entirely fresh identities: a new
    /// chip id, fresh shell pins mirroring the shell pin counts and
    /// roles, every gate cloned with fresh pins (nested chips copied
    /// in full), and every wire replayed through the old-to-new id
    /// map, skipping any edge whose endpoint has no mapping. The
    /// copy shares no identity with anything allocated before the
    /// call, and all its pins start undefined. The result is exactly
    /// `copy_chip_spec` of the chip at the allocator's position.
    #[verifier::loop_isolation(false)]
    pub fn deep_copy(&self, alloc: &mut IdAlloc) -> (r: crate::circuit::Chip)
        requires
            old(alloc).spec_next() + chip_id_cost(self@) <= usize::MAX,
        ensures
            r@ == copy_chip_spec(self@, old(alloc).spec_next()).0,
            final(alloc).spec_next() == copy_chip_spec(self@, old(alloc).spec_next()).1,
            final(alloc).spec_next() == old(alloc).spec_next() + chip_id_cost(self@),
            chip_ids_from(r@, old(alloc).spec_next()),
            chip_ids_below(r@, final(alloc).spec_next()),
        decreases *self,
    {
        proof {
            lemma_copy_chip_props(self@, old(alloc).spec_next());
            crate::view::lemma_gates_view(self.gates@);
        }
        let ghost srcv = self@;
        let ghost n0 = alloc.spec_next();
        let ghost nin_i = srcv.input.len() as int;
        let ghost nout_i = srcv.output.len() as int;
        let ghost ins_spec = fresh_pins((n0 + 1) as usize, nin_i, PinType::ChipInput);
        let ghost outs_spec = fresh_pins((n0 + 1 + nin_i) as usize, nout_i, PinType::ChipOutput);
        proof {
            lemma_fresh_pins((n0 + 1) as usize, nin_i, PinType::ChipInput);
            lemma_fresh_pins((n0 + 1 + nin_i) as usize, nout_i, PinType::ChipOutput);
        }
        let id = alloc.next_id();
        let mut nc = crate::circuit::Chip::new(id);
        let mut id_map: Vec<(usize, usize)> = Vec::new();
        let nin = self.input.len();
        let mut j: usize = 0;
        while j < nin
            invariant
                j <= nin,
                alloc.spec_next() == n0 + 1 + j,
                nc@.id == n0,
                nc@.gates.len() == 0,
                nc@.connections.len() == 0,
                nc@.output.len() == 0,
                nc@.input.len() == j,
                forall|x: int|
                    0 <= x < j ==> (#[trigger] nc@.input[x]) == (Pin {
                        id: (n0 + 1 + x) as usize,
                        kind: PinType::ChipInput,
                        val: None,
                    }),
                id_map@.len() == j,
                forall|x: int|
                    0 <= x < j ==> (#[trigger] id_map@[x]) == (
                    srcv.input[x].id,
                    (n0 + 1 + x) as usize,
                    ),
            decreases nin - j,
        {
            let pid = self.input[j].id;
            let nid = nc.add_shell_pin(alloc, PinType::ChipInput);
            id_map.push((pid, nid));
            j = j + 1;
        }
        proof {
            assert(nc@.input =~= ins_spec);
            assert(id_map@ =~= zip_pin_ids(srcv.input, ins_spec, 0)) by {
                lemma_zip_pin_ids(srcv.input, ins_spec, 0);
            }
        }
        let nout = self.output.len();
        let mut j2: usize = 0;
        while j2 < nout
            invariant
                j2 <= nout,
                alloc.spec_next() == n0 + 1 + nin + j2,
                nc@.id == n0,
                nc@.gates.len() == 0,
                nc@.connections.len() == 0,
                nc@.input == ins_spec,
                nc@.output.len() == j2,
                forall|x: int|
                    0 <= x < j2 ==> (#[trigger] nc@.output[x]) == (Pin {
                        id: (n0 + 1 + nin + x) as usize,
                        kind: PinType::ChipOutput,
                        val: None,
                    }),
                id_map@.len() == nin + j2,
                forall|x: int|
                    0 <= x < nin ==> (#[trigger] id_map@[x]) == zip_pin_ids(
                        srcv.input,
                        ins_spec,
                        0,
                    )[x],
                forall|x: int|
                    0 <= x < j2 ==> (#[trigger] id_map@[nin + x]) == (
                    srcv.output[x].id,
                    (n0 + 1 + nin + x) as usize,
                    ),
            decreases nout - j2,
        {
            let pid = self.output[j2].id;
            let nid = nc.add_shell_pin(alloc, PinType::ChipOutput);
            id_map.push((pid, nid));
            j2 = j2 + 1;
        }
        let ghost m0 = zip_pin_ids(srcv.input, ins_spec, 0) + zip_pin_ids(srcv.output, outs_spec, 0);
        proof {
            assert(nc@.output =~= outs_spec);
            lemma_zip_pin_ids(srcv.input, ins_spec, 0);
            lemma_zip_pin_ids(srcv.output, outs_spec, 0);
            let zin = zip_pin_ids(srcv.input, ins_spec, 0);
            let zout = zip_pin_ids(srcv.output, outs_spec, 0);
            assert forall|x: int| 0 <= x < nout_i implies id_map@[nin + x] == zout[x] by {
                assert(zout[x] == (srcv.output[x].id, outs_spec[x].id));
                assert(outs_spec[x] == (Pin {
                    id: ((n0 + 1 + nin_i) as usize + x) as usize,
                    kind: PinType::ChipOutput,
                    val: None,
                }));
            }
            assert(id_map@ =~= m0);
        }
        let ghost nshell = alloc.spec_next();
        let ghost gsv = srcv.gates;
        let ghost full = clone_gates_spec(gsv, 0, (n0 + 1 + nin_i + nout_i) as usize, m0);
        proof {
            assert(nshell == (n0 + 1 + nin_i + nout_i) as usize);
            assert(clone_gates_spec(gsv, 0, nshell, id_map@) == full);
            lemma_clone_gates_props(gsv, 0, nshell, m0);
        }
        let ngates = self.gates.len();
        let mut i: usize = 0;
        while i < ngates
            invariant
                i <= ngates,
                nc@.id == n0,
                nc@.connections.len() == 0,
                nc@.input == ins_spec,
                nc@.output == outs_spec,
                full.0 == nc@.gates + clone_gates_spec(
                    gsv,
                    i as int,
                    alloc.spec_next(),
                    id_map@,
                ).0,
                full.1 == clone_gates_spec(gsv, i as int, alloc.spec_next(), id_map@).1,
                full.2 == clone_gates_spec(gsv, i as int, alloc.spec_next(), id_map@).2,
                alloc.spec_next() + gates_cost_from(gsv, i as int) <= usize::MAX,
            decreases ngates - i,
        {
            proof {
                crate::view::lemma_gates_view(self.gates@);
                assert(gates_cost_from(gsv, i as int) == gate_id_cost(gsv[i as int])
                    + gates_cost_from(gsv, i as int + 1));
            }
            let ghost pre_gates = nc@.gates;
            let ghost pre_n = alloc.spec_next();
            let ghost pre_m = id_map@;
            let ng = self.gates[i].clone_with_new_ids(alloc, &mut id_map);
            let _ = nc.add_gate(ng);
            proof {
                let (g1, n1, m1) = clone_gate_spec(gsv[i as int], pre_n, pre_m);
                assert(ng@ == g1);
                assert(alloc.spec_next() == n1);
                assert(id_map@ == m1);
                assert(nc@.gates == pre_gates.push(g1));
                assert(pre_gates + (seq![g1] + clone_gates_spec(gsv, i as int + 1, n1, m1).0)
                    =~= pre_gates.push(g1) + clone_gates_spec(gsv, i as int + 1, n1, m1).0);
                lemma_clone_gate_props(gsv[i as int], pre_n, pre_m);
            }
            i = i + 1;
        }
        proof {
            assert(clone_gates_spec(gsv, ngates as int, alloc.spec_next(), id_map@).0
                =~= Seq::<GateV>::empty());
            assert(full.0 =~= nc@.gates + Seq::<GateV>::empty());
            assert(nc@.gates =~= full.0);
            assert(id_map@ == full.2);
            assert(alloc.spec_next() == full.1);
        }
        let ghost basev = nc@;
        proof {
            assert(basev == (ChipV {
                id: n0,
                gates: full.0,
                connections: Seq::empty(),
                input: ins_spec,
                output: outs_spec,
            })) by {
                assert(basev.connections =~= Seq::<Wire>::empty());
            }
        }
        let nw = self.connections.len();
        let mut k: usize = 0;
        while k < nw
            invariant
                k <= nw,
                replay_wires_spec(nc@, srcv.connections, full.2, k as int) == replay_wires_spec(
                    basev,
                    srcv.connections,
                    full.2,
                    0,
                ),
            decreases nw - k,
        {
            let w = self.connections[k];
            let of = map_lookup(&id_map, w.from);
            let ot = map_lookup(&id_map, w.to);
            let ghost prev = nc@;
            if let (Some(nf), Some(nt)) = (of, ot) {
                let _ = nc.connect_pins(nf, nt);
                proof {
                    if is_driver(prev, nf) && is_dest(prev, nt) {
                        assert(nc@ == (ChipV {
                            connections: wires_after_connect(prev.connections, nf, nt),
                            ..prev
                        }));
                    } else {
                        assert(nc@ == prev);
                    }
                }
            }
            k = k + 1;
        }
        proof {
            assert(replay_wires_spec(nc@, srcv.connections, full.2, nw as int) == nc@);
            assert(nc@ == copy_chip_spec(srcv, n0).0);
        }
        nc
    }
}

/// The index of whichever gate carries the given gate id, if the chip
/// holds one.
#[verifier::loop_isolation(false)]
fn gate_ix_exec(c: &crate::circuit::Chip, gid: usize) -> (r: Option<usize>)
    ensures
        match r {
            Some(ix) => find_gate_ix(c@.gates, gid) == ix as int && (ix as int) < c@.gates.len(),
            None => find_gate_ix(c@.gates, gid) == -1,
        },
{
    proof {
        crate::view::lemma_gates_view(c.gates@);
        lemma_find_gate_ix(c@.gates, gid);
    }
    let n = c.gates.len();
    let mut i: usize = 0;
    while i < n
        invariant
            i <= n,
            forall|k: int| 0 <= k < i ==> gv_id(#[trigger] c@.gates[k]) != gid,
        decreases n - i,
    {
        if c.gates[i].id() == gid {
            proof {
                assert(c@.gates[i as int] == crate::view::gate_view(c.gates@[i as int]));
                assert(gv_id(c@.gates[i as int]) == gid);
                lemma_find_gate_ix(c@.gates, gid);
                let r = find_gate_ix(c@.gates, gid);
                if r == -1 {
                    assert(gv_id(c@.gates[i as int]) != gid);
                }
                if r < i as int {
                    assert(gv_id(#[trigger] c@.gates[r]) != gid);
                }
                if r > i as int {
                    assert(gv_id(c@.gates[i as int]) != gid);
                }
            }
            return Some(i);
        }
        i = i + 1;
    }
    None
}

impl crate::circuit::Chip {
    /// Extracts a sub-circuit into a reusable black-box template:
    /// the designated input gates' first output pins become fresh
    /// shell input pins, the designated output gates' first input
    /// pins become fresh shell output pins, every other gate is
    /// cloned under fresh ids, and the wiring is replayed across
    /// the new boundary, dropping any edge with no counterpart.
    /// A designated gate id the chip does not hold is refused with
    /// [`CircuitError::UnknownGate`]; a designated gate without a
    /// pin in the needed role with [`CircuitError::UnknownPin`] —
    /// in both cases nothing is allocated. The result is exactly
    /// `abstract_spec` of the chip at the allocator's position.
    #[verifier::loop_isolation(false)]
    #[verifier::rlimit(100)]
    pub fn create_abstract_chip(
        &self,
        alloc: &mut IdAlloc,
        input_gates: &Vec<usize>,
        output_gates: &Vec<usize>,
    ) -> (r: Result<crate::circuit::Chip, CircuitError>)
        requires
            old(alloc).spec_next() + abs_id_cost(self@, input_gates@, output_gates@) <= usize::MAX,
        ensures
            match r {
                Ok(t) => {
                    &&& abstract_spec(
                        self@,
                        input_gates@,
                        output_gates@,
                        old(alloc).spec_next(),
                    ) matches Ok(p)
                    &&& t@ == abstract_spec(
                        self@,
                        input_gates@,
                        output_gates@,
                        old(alloc).spec_next(),
                    ).unwrap().0
                    &&& final(alloc).spec_next() == abstract_spec(
                        self@,
                        input_gates@,
                        output_gates@,
                        old(alloc).spec_next(),
                    ).unwrap().1
                },
                Err(e) => {
                    &&& abstract_spec(self@, input_gates@, output_gates@, old(alloc).spec_next())
                        == Err::<(ChipV, usize), CircuitError>(e)
                    &&& *final(alloc) == *old(alloc)
                },
            },
    {
        let ghost srcv = self@;
        let ghost insv = input_gates@;
        let ghost outsv = output_gates@;
        let ghost n0 = alloc.spec_next();
        proof {
            crate::view::lemma_gates_view(self.gates@);
        }
        let n_in = input_gates.len();
        let mut srcs: Vec<usize> = Vec::new();
        let mut j: usize = 0;
        while j < n_in
            invariant
                j <= n_in,
                srcs@.len() == j,
                sel_pins(srcv, insv, 0, true) == (match sel_pins(srcv, insv, j as int, true) {
                    Ok(rest) => Ok::<Seq<usize>, CircuitError>(srcs@ + rest),
                    Err(e) => Err::<Seq<usize>, CircuitError>(e),
                }),
            decreases n_in - j,
        {
            let gid = input_gates[j];
            match gate_ix_exec(self, gid) {
                None => {
                    proof {
                        assert(sel_pin_of(srcv, gid, true) == Err::<usize, CircuitError>(
                            CircuitError::UnknownGate,
                        ));
                        assert(sel_pins(srcv, insv, j as int, true) == Err::<
                            Seq<usize>,
                            CircuitError,
                        >(CircuitError::UnknownGate));
                    }
                    return Err(CircuitError::UnknownGate);
                },
                Some(ix) => {
                    proof {
                        crate::view::lemma_gates_view(self.gates@);
                    }
                    let outs = self.gates[ix].output();
                    if outs.len() == 0 {
                        proof {
                            assert(sel_pin_of(srcv, gid, true) == Err::<usize, CircuitError>(
                                CircuitError::UnknownPin,
                            ));
                            assert(sel_pins(srcv, insv, j as int, true) == Err::<
                                Seq<usize>,
                                CircuitError,
                            >(CircuitError::UnknownPin));
                        }
                        return Err(CircuitError::UnknownPin);
                    }
                    let p = outs[0];
                    let ghost pre_srcs = srcs@;
                    srcs.push(p);
                    proof {
                        assert(sel_pin_of(srcv, gid, true) == Ok::<usize, CircuitError>(p));
                        let tail = sel_pins(srcv, insv, j as int + 1, true);
                        if tail is Ok {
                            let rest = tail->Ok_0;
                            assert(pre_srcs + (seq![p] + rest) =~= srcs@ + rest);
                            assert(sel_pins(srcv, insv, j as int, true) == Ok::<
                                Seq<usize>,
                                CircuitError,
                            >(seq![p] + rest));
                        }
                    }
                },
            }
            j = j + 1;
        }
        proof {
            assert(sel_pins(srcv, insv, n_in as int, true) == Ok::<Seq<usize>, CircuitError>(
                Seq::empty(),
            ));
            assert(srcs@ + Seq::<usize>::empty() =~= srcs@);
            assert(sel_pins(srcv, insv, 0, true) == Ok::<Seq<usize>, CircuitError>(srcs@));
        }
        let n_out = output_gates.len();
        let mut dsts: Vec<usize> = Vec::new();
        let mut j2: usize = 0;
        while j2 < n_out
            invariant
                j2 <= n_out,
                dsts@.len() == j2,
                sel_pins(srcv, outsv, 0, false) == (match sel_pins(srcv, outsv, j2 as int, false) {
                    Ok(rest) => Ok::<Seq<usize>, CircuitError>(dsts@ + rest),
                    Err(e) => Err::<Seq<usize>, CircuitError>(e),
                }),
            decreases n_out - j2,
        {
            let gid = output_gates[j2];
            match gate_ix_exec(self, gid) {
                None => {
                    proof {
                        assert(sel_pin_of(srcv, gid, false) == Err::<usize, CircuitError>(
                            CircuitError::UnknownGate,
                        ));
                        assert(sel_pins(srcv, outsv, j2 as int, false) == Err::<
                            Seq<usize>,
                            CircuitError,
                        >(CircuitError::UnknownGate));
                    }
                    return Err(CircuitError::UnknownGate);
                },
                Some(ix) => {
                    proof {
                        crate::view::lemma_gates_view(self.gates@);
                    }
                    let ins = self.gates[ix].input();
                    if ins.len() == 0 {
                        proof {
                            assert(sel_pin_of(srcv, gid, false) == Err::<usize, CircuitError>(
                                CircuitError::UnknownPin,
                            ));
                            assert(sel_pins(srcv, outsv, j2 as int, false) == Err::<
                                Seq<usize>,
                                CircuitError,
                            >(CircuitError::UnknownPin));
                        }
                        return Err(CircuitError::UnknownPin);
                    }
                    let p = ins[0];
                    let ghost pre_dsts = dsts@;
                    dsts.push(p);
                    proof {
                        assert(sel_pin_of(srcv, gid, false) == Ok::<usize, CircuitError>(p));
                        let tail = sel_pins(srcv, outsv, j2 as int + 1, false);
                        if tail is Ok {
                            let rest = tail->Ok_0;
                            assert(pre_dsts + (seq![p] + rest) =~= dsts@ + rest);
                            assert(sel_pins(srcv, outsv, j2 as int, false) == Ok::<
                                Seq<usize>,
                                CircuitError,
                            >(seq![p] + rest));
                        }
                    }
                },
            }
            j2 = j2 + 1;
        }
        proof {
            assert(dsts@ + Seq::<usize>::empty() =~= dsts@);
            assert(sel_pins(srcv, outsv, 0, false) == Ok::<Seq<usize>, CircuitError>(dsts@));
        }
        let id = alloc.next_id();
        let mut t = crate::circuit::Chip::new(id);
        let mut in_map: Vec<(usize, usize)> = Vec::new();
        let mut out_map: Vec<(usize, usize)> = Vec::new();
        let ghost sh_ins = fresh_pins((n0 + 1) as usize, insv.len() as int, PinType::ChipInput);
        let ghost sh_outs = fresh_pins(
            (n0 + 1 + insv.len()) as usize,
            outsv.len() as int,
            PinType::ChipOutput,
        );
        proof {
            lemma_fresh_pins((n0 + 1) as usize, insv.len() as int, PinType::ChipInput);
            lemma_fresh_pins(
                (n0 + 1 + insv.len()) as usize,
                outsv.len() as int,
                PinType::ChipOutput,
            );
        }
        let mut s: usize = 0;
        while s < n_in
            invariant
                s <= n_in,
                n_in == insv.len(),
                srcs@.len() == n_in,
                alloc.spec_next() == n0 + 1 + s,
                t@.id == n0,
                t@.gates.len() == 0,
                t@.connections.len() == 0,
                t@.output.len() == 0,
                t@.input.len() == s,
                forall|x: int|
                    0 <= x < s ==> (#[trigger] t@.input[x]) == (Pin {
                        id: (n0 + 1 + x) as usize,
                        kind: PinType::ChipInput,
                        val: None,
                    }),
                in_map@.len() == s,
                forall|x: int|
                    0 <= x < s ==> (#[trigger] in_map@[x]) == (srcs@[x], (n0 + 1 + x) as usize),
            decreases n_in - s,
        {
            let nid = t.add_shell_pin(alloc, PinType::ChipInput);
            in_map.push((srcs[s], nid));
            s = s + 1;
        }
        let mut s2: usize = 0;
        while s2 < n_out
            invariant
                s2 <= n_out,
                n_out == outsv.len(),
                n_in == insv.len(),
                dsts@.len() == n_out,
                alloc.spec_next() == n0 + 1 + n_in + s2,
                t@.id == n0,
                t@.gates.len() == 0,
                t@.connections.len() == 0,
                t@.input == sh_ins,
                t@.output.len() == s2,
                forall|x: int|
                    0 <= x < s2 ==> (#[trigger] t@.output[x]) == (Pin {
                        id: (n0 + 1 + n_in + x) as usize,
                        kind: PinType::ChipOutput,
                        val: None,
                    }),
                out_map@.len() == s2,
                forall|x: int|
                    0 <= x < s2 ==> (#[trigger] out_map@[x]) == (
                    dsts@[x],
                    (n0 + 1 + n_in + x) as usize,
                    ),
                in_map@.len() == n_in,
                forall|x: int|
                    0 <= x < n_in ==> (#[trigger] in_map@[x]) == (srcs@[x], (n0 + 1 + x) as usize),
            decreases n_out - s2,
        {
            proof {
                assert(t@.input =~= sh_ins);
            }
            let nid = t.add_shell_pin(alloc, PinType::ChipOutput);
            out_map.push((dsts[s2], nid));
            s2 = s2 + 1;
        }
        let ghost in_map_s = zip_shell_ids(srcs@, (n0 + 1) as usize, 0);
        let ghost out_map_s = zip_shell_ids(dsts@, (n0 + 1 + insv.len()) as usize, 0);
        proof {
            assert(t@.input =~= sh_ins);
            assert(t@.output =~= sh_outs);
            lemma_zip_shell_ids(srcs@, (n0 + 1) as usize, 0);
            lemma_zip_shell_ids(dsts@, (n0 + 1 + insv.len()) as usize, 0);
            assert(in_map@ =~= in_map_s);
            assert(out_map@ =~= out_map_s);
        }
        let ghost gsv = srcv.gates;
        let ghost nshell = alloc.spec_next();
        let ghost full = clone_sel_spec(gsv, 0, nshell, Seq::empty(), insv, outsv);
        let mut id_map: Vec<(usize, usize)> = Vec::new();
        proof {
            assert(nshell == (n0 + 1 + insv.len() + outsv.len()) as usize);
            assert(id_map@ =~= Seq::<(usize, usize)>::empty());
        }
        let ngates = self.gates.len();
        let mut i: usize = 0;
        while i < ngates
            invariant
                i <= ngates,
                ngates == gsv.len(),
                t@.id == n0,
                t@.connections.len() == 0,
                t@.input == sh_ins,
                t@.output == sh_outs,
                full.0 == t@.gates + clone_sel_spec(
                    gsv,
                    i as int,
                    alloc.spec_next(),
                    id_map@,
                    insv,
                    outsv,
                ).0,
                full.1 == clone_sel_spec(gsv, i as int, alloc.spec_next(), id_map@, insv, outsv).1,
                full.2 == clone_sel_spec(gsv, i as int, alloc.spec_next(), id_map@, insv, outsv).2,
                alloc.spec_next() + sel_cost_from(gsv, i as int, insv, outsv) <= usize::MAX,
            decreases ngates - i,
        {
            proof {
                crate::view::lemma_gates_view(self.gates@);
            }
            let gid = self.gates[i].id();
            if !(contains_id(input_gates, gid) || contains_id(output_gates, gid)) {
                let ghost pre_gates = t@.gates;
                let ghost pre_n = alloc.spec_next();
                let ghost pre_m = id_map@;
                let ng = self.gates[i].clone_with_new_ids(alloc, &mut id_map);
                let _ = t.add_gate(ng);
                proof {
                    let (g1, n1, m1) = clone_gate_spec(gsv[i as int], pre_n, pre_m);
                    assert(pre_gates + (seq![g1] + clone_sel_spec(
                        gsv,
                        i as int + 1,
                        n1,
                        m1,
                        insv,
                        outsv,
                    ).0) =~= pre_gates.push(g1) + clone_sel_spec(
                        gsv,
                        i as int + 1,
                        n1,
                        m1,
                        insv,
                        outsv,
                    ).0);
                }
            }
            i = i + 1;
        }
        proof {
            assert(clone_sel_spec(gsv, ngates as int, alloc.spec_next(), id_map@, insv, outsv).0
                =~= Seq::<GateV>::empty());
            assert(full.0 =~= t@.gates + Seq::<GateV>::empty());
            assert(t@.gates =~= full.0);
        }
        let ghost basev = t@;
        proof {
            assert(basev == (ChipV {
                id: n0,
                gates: full.0,
                connections: Seq::empty(),
                input: sh_ins,
                output: sh_outs,
            })) by {
                assert(basev.connections =~= Seq::<Wire>::empty());
            }
        }
        let nw = self.connections.len();
        let mut k: usize = 0;
        while k < nw
            invariant
                k <= nw,
                replay_abs_spec(t@, srcv.connections, in_map_s, full.2, out_map_s, k as int)
                    == replay_abs_spec(basev, srcv.connections, in_map_s, full.2, out_map_s, 0),
                in_map@ == in_map_s,
                out_map@ == out_map_s,
                id_map@ == full.2,
            decreases nw - k,
        {
            let w = self.connections[k];
            let ghost prev = t@;
            match map_lookup(&in_map, w.from) {
                Some(nf) => {
                    match map_lookup(&id_map, w.to) {
                        Some(nt) => {
                            let _ = t.connect_pins(nf, nt);
                            proof {
                                assert(t@ == connect_checked(prev, nf, nt));
                            }
                        },
                        None => {},
                    }
                },
                None => {
                    match map_lookup(&id_map, w.from) {
                        Some(nf) => {
                            match map_lookup(&out_map, w.to) {
                                Some(nt) => {
                                    let _ = t.connect_pins(nf, nt);
                                    proof {
                                        assert(t@ == connect_checked(prev, nf, nt));
                                    }
                                },
                                None => {
                                    match map_lookup(&id_map, w.to) {
                                        Some(nt) => {
                                            let _ = t.connect_pins(nf, nt);
                                            proof {
                                                assert(t@ == connect_checked(prev, nf, nt));
                                            }
                                        },
                                        None => {},
                                    }
                                },
                            }
                        },
                        None => {},
                    }
                },
            }
            k = k + 1;
        }
        proof {
            assert(replay_abs_spec(t@, srcv.connections, in_map_s, full.2, out_map_s, nw as int)
                == t@);
        }
        Ok(t)
    }
}

/// What `zip_shell_ids` pairs: each boundary pin with a consecutive
/// fresh id.
pub proof fn lemma_zip_shell_ids(pins: Seq<usize>, n: usize, j: int)
    requires
        0 <= j <= pins.len(),
    ensures
        zip_shell_ids(pins, n, j).len() == pins.len() - j,
        forall|x: int|
            0 <= x < pins.len() - j ==> (#[trigger] zip_shell_ids(pins, n, j)[x]) == (
            pins[j + x],
            (n + j + x) as usize,
            ),
    decreases pins.len() - j,
{
    if j < pins.len() {
        lemma_zip_shell_ids(pins, n, j + 1);
        let z = zip_shell_ids(pins, n, j);
        let tl = zip_shell_ids(pins, n, j + 1);
        assert forall|x: int| 0 <= x < pins.len() - j implies (#[trigger] z[x]) == (
        pins[j + x],
        (n + j + x) as usize,
        ) by {
            if x > 0 {
                assert(z[x] == tl[x - 1]);
            }
        }
    }
}

/// The shell pin counts of a copy equal the source's: replaying
/// wires leaves the fresh shell pins as built.
pub proof fn lemma_replay_frame_of_copy(c: ChipV, n: usize)
    ensures
        copy_chip_spec(c, n).0.input.len() == c.input.len(),
        copy_chip_spec(c, n).0.output.len() == c.output.len(),
        copy_chip_spec(c, n).0.input == fresh_pins(
            (n + 1) as usize,
            c.input.len() as int,
            PinType::ChipInput,
        ),
        copy_chip_spec(c, n).0.output == fresh_pins(
            (n + 1 + c.input.len()) as usize,
            c.output.len() as int,
            PinType::ChipOutput,
        ),
    decreases c,
{
    let nin = c.input.len() as int;
    let nout = c.output.len() as int;
    let ins = fresh_pins((n + 1) as usize, nin, PinType::ChipInput);
    let outs = fresh_pins((n + 1 + nin) as usize, nout, PinType::ChipOutput);
    let m0 = zip_pin_ids(c.input, ins, 0) + zip_pin_ids(c.output, outs, 0);
    let (gs, n2, m2) = clone_gates_spec(c.gates, 0, (n + 1 + nin + nout) as usize, m0);
    let base = ChipV { id: n, gates: gs, connections: Seq::empty(), input: ins, output: outs };
    lemma_replay_frame(base, c.connections, m2, 0);
    assert(fresh_pins((n + 1) as usize, nin, PinType::ChipInput).len() == (if nin <= 0 {
        0int
    } else {
        nin
    })) by {
        lemma_fresh_pins_len((n + 1) as usize, nin, PinType::ChipInput);
    }
    assert(fresh_pins((n + 1 + nin) as usize, nout, PinType::ChipOutput).len() == (if nout <= 0 {
        0int
    } else {
        nout
    })) by {
        lemma_fresh_pins_len((n + 1 + nin) as usize, nout, PinType::ChipOutput);
    }
}

/// The length of a fresh pin run, with no bound on the start id.
pub proof fn lemma_fresh_pins_len(n: usize, cnt: int, kind: PinType)
    ensures
        fresh_pins(n, cnt, kind).len() == (if cnt <= 0 {
            0int
        } else {
            cnt
        }),
    decreases cnt,
{
    if cnt > 0 {
        lemma_fresh_pins_len((n + 1) as usize, cnt - 1, kind);
    }
}

} // verus!
