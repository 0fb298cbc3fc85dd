//! Deep copy and abstraction: fresh disjoint identities, preserved
//! behavior, and the XOR template built by abstracting a
//! sub-circuit.

use lgsim::ids::IdAlloc;
use lgsim::pin::PinType;
use lgsim::gate::{Gate, GateType};
use lgsim::circuit::Chip;
use lgsim::CircuitError;

fn all_ids_of(chip: &Chip) -> Vec<usize> {
    let mut ids = vec![chip.id];
    for p in chip.input.iter().chain(chip.output.iter()) {
        ids.push(p.id);
    }
    for g in chip.gates.iter() {
        ids.push(g.id());
        for p in g.pins() {
            ids.push(p.id);
        }
        if let Gate::Chip(inner) = g {
            ids.extend(all_ids_of(inner));
        }
    }
    ids
}

/// A shell chip computing `NOT(a AND b)` between two shell inputs
/// and one shell output.
fn nand_shell(alloc: &mut IdAlloc) -> (Chip, usize, usize, usize) {
    let chip_id = alloc.next_id();
    let mut chip = Chip::new(chip_id);
    let in_a = chip.add_shell_pin(alloc, PinType::ChipInput);
    let in_b = chip.add_shell_pin(alloc, PinType::ChipInput);
    let out = chip.add_shell_pin(alloc, PinType::ChipOutput);
    let and = Gate::new(alloc, GateType::And);
    let not = Gate::new(alloc, GateType::Not);
    let and_in = and.input();
    let and_out = and.output()[0];
    let not_in = not.input()[0];
    let not_out = not.output()[0];
    chip.add_gate(and);
    chip.add_gate(not);
    chip.connect_pins(in_a, and_in[0]).unwrap();
    chip.connect_pins(in_b, and_in[1]).unwrap();
    chip.connect_pins(and_out, not_in).unwrap();
    chip.connect_pins(not_out, out).unwrap();
    (chip, in_a, in_b, out)
}

#[test]
fn deep_copy_has_disjoint_ids() {
    let mut alloc = IdAlloc::new();
    let (original, _, _, _) = nand_shell(&mut alloc);
    let copy = original.deep_copy(&mut alloc);
    let mut ids_a = all_ids_of(&original);
    let ids_b = all_ids_of(&copy);
    ids_a.retain(|x| ids_b.contains(x));
    assert!(ids_a.is_empty());
}

#[test]
fn deep_copy_behaves_like_the_original() {
    for (a, b) in [(false, false), (false, true), (true, false), (true, true)] {
        let mut alloc = IdAlloc::new();
        let (mut original, in_a, in_b, _) = nand_shell(&mut alloc);
        let mut copy = original.deep_copy(&mut alloc);
        original.set_pin(in_a, Some(a)).unwrap();
        original.set_pin(in_b, Some(b)).unwrap();
        let copy_in_a = copy.input[0].id;
        let copy_in_b = copy.input[1].id;
        copy.set_pin(copy_in_a, Some(a)).unwrap();
        copy.set_pin(copy_in_b, Some(b)).unwrap();
        let r1 = original.simulate();
        let r2 = copy.simulate();
        assert_eq!(r1, Ok(!(a && b)));
        assert_eq!(r1, r2);
    }
}

#[test]
fn deep_copy_starts_with_undefined_pins() {
    let mut alloc = IdAlloc::new();
    let (mut original, in_a, in_b, _) = nand_shell(&mut alloc);
    original.set_pin(in_a, Some(true)).unwrap();
    original.set_pin(in_b, Some(true)).unwrap();
    original.simulate().unwrap();
    let copy = original.deep_copy(&mut alloc);
    for p in copy.input.iter().chain(copy.output.iter()) {
        assert_eq!(p.val, None);
    }
    for g in copy.gates.iter() {
        for p in g.pins() {
            assert_eq!(p.val, None);
        }
    }
}

/// An editor-style board computing XOR of two sources into a sink:
/// `xor(a, b) = NOT(NOT(a AND NOT b) AND NOT(NOT a AND b))`.
fn xor_board(alloc: &mut IdAlloc) -> (Chip, usize, usize) {
    let chip_id = alloc.next_id();
    let mut chip = Chip::new(chip_id);
    let sa = Gate::new(alloc, GateType::Source);
    let sb = Gate::new(alloc, GateType::Source);
    let sink = Gate::new(alloc, GateType::Output);
    let na = Gate::new(alloc, GateType::Not);
    let nb = Gate::new(alloc, GateType::Not);
    let and1 = Gate::new(alloc, GateType::And);
    let and2 = Gate::new(alloc, GateType::And);
    let n1 = Gate::new(alloc, GateType::Not);
    let n2 = Gate::new(alloc, GateType::Not);
    let and3 = Gate::new(alloc, GateType::And);
    let nfinal = Gate::new(alloc, GateType::Not);

    let sa_out = sa.output()[0];
    let sb_out = sb.output()[0];
    let sink_in = sink.input()[0];
    let na_io = (na.input()[0], na.output()[0]);
    let nb_io = (nb.input()[0], nb.output()[0]);
    let and1_io = (and1.input()[0], and1.input()[1], and1.output()[0]);
    let and2_io = (and2.input()[0], and2.input()[1], and2.output()[0]);
    let n1_io = (n1.input()[0], n1.output()[0]);
    let n2_io = (n2.input()[0], n2.output()[0]);
    let and3_io = (and3.input()[0], and3.input()[1], and3.output()[0]);
    let nf_io = (nfinal.input()[0], nfinal.output()[0]);

    let sa_id = chip.add_gate(sa);
    let sb_id = chip.add_gate(sb);
    let sink_id = chip.add_gate(sink);
    chip.add_gate(na);
    chip.add_gate(nb);
    chip.add_gate(and1);
    chip.add_gate(and2);
    chip.add_gate(n1);
    chip.add_gate(n2);
    chip.add_gate(and3);
    chip.add_gate(nfinal);

    chip.connect_pins(sa_out, na_io.0).unwrap();
    chip.connect_pins(sb_out, nb_io.0).unwrap();
    chip.connect_pins(sa_out, and1_io.0).unwrap();
    chip.connect_pins(nb_io.1, and1_io.1).unwrap();
    chip.connect_pins(na_io.1, and2_io.0).unwrap();
    chip.connect_pins(sb_out, and2_io.1).unwrap();
    chip.connect_pins(and1_io.2, n1_io.0).unwrap();
    chip.connect_pins(and2_io.2, n2_io.0).unwrap();
    chip.connect_pins(n1_io.1, and3_io.0).unwrap();
    chip.connect_pins(n2_io.1, and3_io.1).unwrap();
    chip.connect_pins(and3_io.2, nf_io.0).unwrap();
    chip.connect_pins(nf_io.1, sink_in).unwrap();
    let _ = sink_id;
    (chip, sa_id, sb_id)
}

#[test]
fn abstracted_xor_reproduces_the_truth_table() {
    let mut alloc = IdAlloc::new();
    let (board, sa_id, sb_id) = xor_board(&mut alloc);
    let sink_id = board.gates.iter().map(|g| g.id()).nth(2).unwrap();
    let template = board
        .create_abstract_chip(&mut alloc, &vec![sa_id, sb_id], &vec![sink_id])
        .unwrap();
    assert_eq!(template.input.len(), 2);
    assert_eq!(template.output.len(), 1);
    for (a, b, want) in [
        (false, false, false),
        (false, true, true),
        (true, false, true),
        (true, true, false),
    ] {
        let mut unit = template.deep_copy(&mut alloc);
        let in_a = unit.input[0].id;
        let in_b = unit.input[1].id;
        unit.set_pin(in_a, Some(a)).unwrap();
        unit.set_pin(in_b, Some(b)).unwrap();
        assert_eq!(unit.simulate(), Ok(want));
    }
}

#[test]
fn abstract_rejects_unknown_gate_ids() {
    let mut alloc = IdAlloc::new();
    let (board, sa_id, _sb_id) = xor_board(&mut alloc);
    let r = board.create_abstract_chip(&mut alloc, &vec![sa_id, 999_999], &vec![]);
    assert_eq!(r.err(), Some(CircuitError::UnknownGate));
}

#[test]
fn abstract_rejects_a_boundary_gate_without_the_needed_pin() {
    let mut alloc = IdAlloc::new();
    let (board, sa_id, _sb_id) = xor_board(&mut alloc);
    // A source gate has no input pin, so it cannot stand as a
    // designated output gate.
    let r = board.create_abstract_chip(&mut alloc, &vec![], &vec![sa_id]);
    assert_eq!(r.err(), Some(CircuitError::UnknownPin));
}

#[test]
fn clone_with_new_ids_remaps_every_pin() {
    let mut alloc = IdAlloc::new();
    let g = Gate::new(&mut alloc, GateType::And);
    let old_ins = g.input();
    let old_out = g.output()[0];
    let mut id_map: Vec<(usize, usize)> = Vec::new();
    let g2 = g.clone_with_new_ids(&mut alloc, &mut id_map);
    assert_eq!(id_map.len(), 3);
    assert_eq!(id_map[0].0, old_ins[0]);
    assert_eq!(id_map[1].0, old_ins[1]);
    assert_eq!(id_map[2].0, old_out);
    assert_eq!(g2.input()[0], id_map[0].1);
    assert_eq!(g2.input()[1], id_map[1].1);
    assert_eq!(g2.output()[0], id_map[2].1);
    assert_ne!(g.id(), g2.id());
}
