//! Leaf gate behavior: truth tables, strict undefined-input
//! handling, pin writes and accessors.

use lgsim::ids::IdAlloc;
use lgsim::gate::{Gate, GateType, AndGate, NotGate, SourceGate, OutputGate};
use lgsim::CircuitError;

#[test]
fn and_gate_truth_table() {
    for (a, b, want) in [
        (false, false, false),
        (false, true, false),
        (true, false, false),
        (true, true, true),
    ] {
        let mut alloc = IdAlloc::new();
        let id = alloc.next_id();
        let mut g = AndGate::new(&mut alloc, id);
        g.set_pin(g.a.id, Some(a)).unwrap();
        g.set_pin(g.b.id, Some(b)).unwrap();
        assert_eq!(g.evaluate(), Ok(want));
        assert_eq!(g.out.val, Some(want));
    }
}

#[test]
fn not_gate_complements_input() {
    for a in [false, true] {
        let mut alloc = IdAlloc::new();
        let id = alloc.next_id();
        let mut g = NotGate::new(&mut alloc, id);
        g.set_pin(g.a.id, Some(a)).unwrap();
        assert_eq!(g.evaluate(), Ok(!a));
        assert_eq!(g.out.val, Some(!a));
    }
}

#[test]
fn and_gate_undefined_input_is_an_error() {
    let mut alloc = IdAlloc::new();
    let id = alloc.next_id();
    let mut g = AndGate::new(&mut alloc, id);
    g.set_pin(g.a.id, Some(true)).unwrap();
    assert_eq!(g.evaluate(), Err(CircuitError::UndefinedInput));
    assert_eq!(g.out.val, None);
}

#[test]
fn not_gate_undefined_input_is_an_error() {
    let mut alloc = IdAlloc::new();
    let id = alloc.next_id();
    let mut g = NotGate::new(&mut alloc, id);
    assert_eq!(g.evaluate(), Err(CircuitError::UndefinedInput));
}

#[test]
fn output_gate_surfaces_its_input() {
    let mut alloc = IdAlloc::new();
    let id = alloc.next_id();
    let mut g = OutputGate::new(&mut alloc, id);
    assert_eq!(g.evaluate(), Err(CircuitError::UndefinedInput));
    g.set_pin(g.a.id, Some(true)).unwrap();
    assert_eq!(g.evaluate(), Ok(true));
}

#[test]
fn source_gate_reports_its_output() {
    let mut alloc = IdAlloc::new();
    let id = alloc.next_id();
    let mut g = SourceGate::new(&mut alloc, id);
    assert_eq!(g.evaluate(), false);
    g.set_pin(g.out.id, Some(true)).unwrap();
    assert_eq!(g.evaluate(), true);
}

#[test]
fn set_pin_rejects_foreign_ids() {
    let mut alloc = IdAlloc::new();
    let mut g = Gate::new(&mut alloc, GateType::And);
    assert_eq!(g.set_pin(999_999, Some(true)), Err(CircuitError::UnknownPin));
}

#[test]
fn gate_accessors_report_pin_counts() {
    let mut alloc = IdAlloc::new();
    let and = Gate::new(&mut alloc, GateType::And);
    assert_eq!(and.input().len(), 2);
    assert_eq!(and.output().len(), 1);
    assert_eq!(and.pins().len(), 3);
    let not = Gate::new(&mut alloc, GateType::Not);
    assert_eq!(not.input().len(), 1);
    assert_eq!(not.output().len(), 1);
    assert_eq!(not.pins().len(), 2);
    let source = Gate::new(&mut alloc, GateType::Source);
    assert_eq!(source.input().len(), 0);
    assert_eq!(source.output().len(), 1);
    let sink = Gate::new(&mut alloc, GateType::Output);
    assert_eq!(sink.input().len(), 1);
    assert_eq!(sink.output().len(), 0);
    let chip = Gate::new(&mut alloc, GateType::Chip);
    assert_eq!(chip.input().len(), 0);
    assert_eq!(chip.output().len(), 0);
}

#[test]
fn evaluate_through_gate_dispatch() {
    let mut alloc = IdAlloc::new();
    let mut g = Gate::new(&mut alloc, GateType::And);
    let ins = g.input();
    g.set_pin(ins[0], Some(true)).unwrap();
    g.set_pin(ins[1], Some(true)).unwrap();
    assert_eq!(g.evaluate(), Ok(true));
    let outs = g.output();
    let pins = g.pins();
    let out_pin = pins.iter().find(|p| p.id == outs[0]).unwrap();
    assert_eq!(out_pin.val, Some(true));
}

#[test]
fn next_uuid_never_repeats() {
    let mut alloc = IdAlloc::new();
    let a = lgsim::ids::next_uuid(&mut alloc);
    let b = lgsim::ids::next_uuid(&mut alloc);
    let c = lgsim::ids::next_uuid(&mut alloc);
    assert!(a < b && b < c);
}

#[test]
fn gate_ids_are_distinct_across_kinds() {
    let mut alloc = IdAlloc::new();
    let mut seen: Vec<usize> = Vec::new();
    for t in [GateType::And, GateType::Not, GateType::Source, GateType::Output, GateType::Chip] {
        let g = Gate::new(&mut alloc, t);
        seen.push(g.id());
        for p in g.pins() {
            seen.push(p.id);
        }
    }
    let mut sorted = seen.clone();
    sorted.sort();
    sorted.dedup();
    assert_eq!(sorted.len(), seen.len());
}
