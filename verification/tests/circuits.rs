//! Chip-level behavior: wiring, single-driver rewiring, simulation
//! in dependency order, strictness and cycle rejection.

use lgsim::ids::IdAlloc;
use lgsim::pin::PinType;
use lgsim::gate::{Gate, GateType};
use lgsim::circuit::Chip;
use lgsim::CircuitError;

/// A chip holding `AND(a, b) -> sink`, with the ids needed to drive
/// and read it: (chip, source-out pins, sink gate id, sink-in pin).
fn and_circuit(alloc: &mut IdAlloc) -> (Chip, [usize; 2], usize, usize) {
    let chip_id = alloc.next_id();
    let mut chip = Chip::new(chip_id);
    let s1 = Gate::new(alloc, GateType::Source);
    let s2 = Gate::new(alloc, GateType::Source);
    let and = Gate::new(alloc, GateType::And);
    let sink = Gate::new(alloc, GateType::Output);
    let s1_out = s1.output()[0];
    let s2_out = s2.output()[0];
    let and_in = and.input();
    let and_out = and.output()[0];
    let sink_in = sink.input()[0];
    let s1_id = chip.add_gate(s1);
    let s2_id = chip.add_gate(s2);
    chip.add_gate(and);
    let sink_id = chip.add_gate(sink);
    chip.connect_pins(s1_out, and_in[0]).unwrap();
    chip.connect_pins(s2_out, and_in[1]).unwrap();
    chip.connect_pins(and_out, sink_in).unwrap();
    let _ = (s1_id, s2_id);
    (chip, [s1_out, s2_out], sink_id, sink_in)
}

fn set_source(chip: &mut Chip, pin: usize, val: bool) {
    for g in chip.gates.iter_mut() {
        if g.set_pin(pin, Some(val)).is_ok() {
            return;
        }
    }
    panic!("no gate owns the pin");
}

fn read_pin(chip: &Chip, pin: usize) -> Option<bool> {
    for g in chip.gates.iter() {
        for p in g.pins() {
            if p.id == pin {
                return p.val;
            }
        }
    }
    panic!("no gate owns the pin");
}

#[test]
fn simulated_and_circuit_matches_truth_table() {
    for (a, b, want) in [
        (false, false, false),
        (false, true, false),
        (true, false, false),
        (true, true, true),
    ] {
        let mut alloc = IdAlloc::new();
        let (mut chip, sources, _sink_id, sink_in) = and_circuit(&mut alloc);
        set_source(&mut chip, sources[0], a);
        set_source(&mut chip, sources[1], b);
        chip.simulate().unwrap();
        assert_eq!(read_pin(&chip, sink_in), Some(want));
    }
}

#[test]
fn connect_twice_keeps_only_the_most_recent_driver() {
    let mut alloc = IdAlloc::new();
    let chip_id = alloc.next_id();
    let mut chip = Chip::new(chip_id);
    let s1 = Gate::new(&mut alloc, GateType::Source);
    let s2 = Gate::new(&mut alloc, GateType::Source);
    let sink = Gate::new(&mut alloc, GateType::Output);
    let s1_out = s1.output()[0];
    let s2_out = s2.output()[0];
    let sink_in = sink.input()[0];
    chip.add_gate(s1);
    chip.add_gate(s2);
    chip.add_gate(sink);
    chip.connect_pins(s1_out, sink_in).unwrap();
    chip.connect_pins(s2_out, sink_in).unwrap();
    let into_sink: Vec<_> = chip.connections.iter().filter(|w| w.to == sink_in).collect();
    assert_eq!(into_sink.len(), 1);
    assert_eq!(into_sink[0].from, s2_out);
}

#[test]
fn connect_rejects_unknown_endpoints() {
    let mut alloc = IdAlloc::new();
    let chip_id = alloc.next_id();
    let mut chip = Chip::new(chip_id);
    let s = Gate::new(&mut alloc, GateType::Source);
    let s_out = s.output()[0];
    chip.add_gate(s);
    assert_eq!(chip.connect_pins(s_out, 999_999), Err(CircuitError::UnknownPin));
    assert_eq!(chip.connect_pins(999_999, s_out), Err(CircuitError::UnknownPin));
    assert_eq!(chip.connections.len(), 0);
}

#[test]
fn unset_source_feeding_a_gate_is_undefined_input() {
    let mut alloc = IdAlloc::new();
    let chip_id = alloc.next_id();
    let mut chip = Chip::new(chip_id);
    let s = Gate::new(&mut alloc, GateType::Source);
    let not = Gate::new(&mut alloc, GateType::Not);
    let s_out = s.output()[0];
    let not_in = not.input()[0];
    chip.add_gate(s);
    chip.add_gate(not);
    chip.connect_pins(s_out, not_in).unwrap();
    assert_eq!(chip.simulate(), Err(CircuitError::UndefinedInput));
}

#[test]
fn cyclic_circuit_is_rejected() {
    let mut alloc = IdAlloc::new();
    let chip_id = alloc.next_id();
    let mut chip = Chip::new(chip_id);
    let not = Gate::new(&mut alloc, GateType::Not);
    let not_in = not.input()[0];
    let not_out = not.output()[0];
    chip.add_gate(not);
    chip.connect_pins(not_out, not_in).unwrap();
    assert_eq!(chip.simulate(), Err(CircuitError::CyclicCircuit));
}

#[test]
fn shell_chip_computes_complement() {
    for a in [false, true] {
        let mut alloc = IdAlloc::new();
        let chip_id = alloc.next_id();
        let mut chip = Chip::new(chip_id);
        let shell_in = chip.add_shell_pin(&mut alloc, PinType::ChipInput);
        let shell_out = chip.add_shell_pin(&mut alloc, PinType::ChipOutput);
        let not = Gate::new(&mut alloc, GateType::Not);
        let not_in = not.input()[0];
        let not_out = not.output()[0];
        chip.add_gate(not);
        chip.connect_pins(shell_in, not_in).unwrap();
        chip.connect_pins(not_out, shell_out).unwrap();
        chip.set_pin(shell_in, Some(a)).unwrap();
        assert_eq!(chip.simulate(), Ok(!a));
    }
}

#[test]
fn chip_set_pin_rejects_internal_pins() {
    let mut alloc = IdAlloc::new();
    let chip_id = alloc.next_id();
    let mut chip = Chip::new(chip_id);
    let not = Gate::new(&mut alloc, GateType::Not);
    let not_in = not.input()[0];
    chip.add_gate(not);
    assert_eq!(chip.set_pin(not_in, Some(true)), Err(CircuitError::UnknownPin));
}

#[test]
fn simulate_twice_leaves_every_pin_unchanged() {
    let mut alloc = IdAlloc::new();
    let (mut chip, sources, _sink_id, _sink_in) = and_circuit(&mut alloc);
    set_source(&mut chip, sources[0], true);
    set_source(&mut chip, sources[1], false);
    let r1 = chip.simulate();
    let snapshot: Vec<Vec<(usize, Option<bool>)>> = chip
        .gates
        .iter()
        .map(|g| g.pins().iter().map(|p| (p.id, p.val)).collect())
        .collect();
    let r2 = chip.simulate();
    let after: Vec<Vec<(usize, Option<bool>)>> = chip
        .gates
        .iter()
        .map(|g| g.pins().iter().map(|p| (p.id, p.val)).collect())
        .collect();
    assert_eq!(r1, r2);
    assert_eq!(snapshot, after);
}

#[test]
fn nested_chip_acts_as_a_gate() {
    for a in [false, true] {
        let mut alloc = IdAlloc::new();
        // Inner chip: one NOT between its shell pins.
        let inner_id = alloc.next_id();
        let mut inner = Chip::new(inner_id);
        let in_pin = inner.add_shell_pin(&mut alloc, PinType::ChipInput);
        let out_pin = inner.add_shell_pin(&mut alloc, PinType::ChipOutput);
        let not = Gate::new(&mut alloc, GateType::Not);
        let not_in = not.input()[0];
        let not_out = not.output()[0];
        inner.add_gate(not);
        inner.connect_pins(in_pin, not_in).unwrap();
        inner.connect_pins(not_out, out_pin).unwrap();
        // Outer chip: source -> inner -> sink.
        let outer_id = alloc.next_id();
        let mut outer = Chip::new(outer_id);
        let s = Gate::new(&mut alloc, GateType::Source);
        let sink = Gate::new(&mut alloc, GateType::Output);
        let s_out = s.output()[0];
        let sink_in = sink.input()[0];
        chip_gates_push(&mut outer, s, Gate::Chip(inner), sink);
        outer.connect_pins(s_out, in_pin).unwrap();
        outer.connect_pins(out_pin, sink_in).unwrap();
        set_source(&mut outer, s_out, a);
        outer.simulate().unwrap();
        assert_eq!(read_pin(&outer, sink_in), Some(!a));
    }
}

fn chip_gates_push(chip: &mut Chip, a: Gate, b: Gate, c: Gate) {
    chip.add_gate(a);
    chip.add_gate(b);
    chip.add_gate(c);
}
