use std::collections::BTreeMap;
use rustsimulationservice::coefficient::{complex_from_parts, MAX_MAGNITUDE};
use rustsimulationservice::ensemble::Ensemble;
use rustsimulationservice::ket::create_ket;
use rustsimulationservice::parser::{
    apply_operation, execute_operations, gate_named, init_classical_reg, init_ensemble, init_state,
    Gate, Operand, Operation, RunError,
};
use rustsimulationservice::state::create_state;

fn gate(name: &str, operands: Vec<Operand>) -> Operation {
    Operation::ApplyGate(name.to_string(), operands)
}

fn q(reg: char, i: usize) -> Operand {
    Operand::Qubit(reg, i)
}

fn measure(reg: char, i: usize, creg: char, j: usize) -> Operation {
    Operation::Measure(q(reg, i), q(creg, j))
}

#[test]
fn test_parser() {
    let program = vec![
        Operation::QReg('q', 3),
        Operation::QReg('r', 3),
        gate("x", vec![q('q', 0)]),
        gate("cx", vec![q('q', 0), q('q', 1)]),
        Operation::CReg('c', 3),
        measure('q', 0, 'c', 0),
        measure('r', 0, 'c', 1),
        measure('q', 0, 'c', 2),
    ];
    let result = execute_operations(&program).unwrap();
    let mut regs = BTreeMap::new();
    regs.insert(0, 1);
    regs.insert(1, 0);
    regs.insert(2, 1);
    assert_eq!(result, vec![('c', regs)]);
}

#[test]
fn bit_flip_round_trip() {
    let program = vec![
        Operation::QReg('q', 1),
        Operation::CReg('c', 1),
        gate("x", vec![q('q', 0)]),
        gate("x", vec![q('q', 0)]),
        measure('q', 0, 'c', 0),
    ];
    let result = execute_operations(&program).unwrap();
    assert_eq!(result[0].1.get(&0), Some(&0));
}

#[test]
fn init_classical_reg_is_empty() {
    assert!(init_classical_reg(4).is_empty());
}

#[test]
fn gate_names() {
    assert_eq!(gate_named(&"x".to_string()), Some(Gate::X));
    assert_eq!(gate_named(&"y".to_string()), Some(Gate::Y));
    assert_eq!(gate_named(&"z".to_string()), Some(Gate::Z));
    assert_eq!(gate_named(&"h".to_string()), Some(Gate::H));
    assert_eq!(gate_named(&"cx".to_string()), Some(Gate::CX));
    assert_eq!(gate_named(&"t".to_string()), None);
}

#[test]
fn unsupported_statements_are_skipped() {
    let program = vec![
        Operation::QReg('q', 1),
        Operation::CReg('c', 1),
        gate("t", vec![q('q', 0)]),
        gate("x", vec![Operand::Register('q')]),
        gate("x", vec![q('w', 0)]),
        Operation::Measure(Operand::Register('q'), Operand::Register('c')),
        Operation::Unsupported,
        measure('q', 0, 'c', 0),
    ];
    let result = execute_operations(&program).unwrap();
    assert_eq!(result[0].1.get(&0), Some(&0));
}

#[test]
fn measuring_an_unknown_register_fails() {
    let program = vec![Operation::CReg('c', 1), measure('z', 0, 'c', 0)];
    assert_eq!(execute_operations(&program), Err(RunError::UnknownRegister('z')));
    let cx = vec![Operation::QReg('q', 1), gate("cx", vec![q('q', 0), q('v', 0)])];
    assert_eq!(execute_operations(&cx), Err(RunError::UnknownRegister('v')));
}

#[test]
fn out_of_range_qubit_fails() {
    let program = vec![Operation::QReg('q', 3), gate("x", vec![q('q', 5)])];
    assert_eq!(execute_operations(&program), Err(RunError::QubitOutOfRange('q', 5)));
    let m = vec![Operation::QReg('q', 1), Operation::CReg('c', 1), measure('q', 1, 'c', 0)];
    assert_eq!(execute_operations(&m), Err(RunError::QubitOutOfRange('q', 1)));
}

#[test]
fn oversized_amplitudes_are_refused() {
    let mut e: Ensemble = init_ensemble();
    let big = create_ket(complex_from_parts(MAX_MAGNITUDE, 0), bit_vec::BitVec::from_elem(1, false), vec![]);
    let one = create_ket(complex_from_parts(1, 0), bit_vec::BitVec::from_elem(1, true), vec![]);
    e.add_subsystem(create_state(vec![big, one], 1, 'q', None, None, None), 'q');
    let mut c: Vec<(char, BTreeMap<usize, usize>)> = Vec::new();
    let r = apply_operation(&mut e, &mut c, &gate("h", vec![q('q', 0)]));
    assert_eq!(r, Err(RunError::Overflow('q')));
    assert_eq!(e.get('q').unwrap().kets.len(), 2);
}

#[test]
fn declaring_registers() {
    let mut e: Ensemble = init_ensemble();
    let mut c: Vec<(char, BTreeMap<usize, usize>)> = Vec::new();
    assert_eq!(apply_operation(&mut e, &mut c, &Operation::QReg('q', 2)), Ok(()));
    assert_eq!(apply_operation(&mut e, &mut c, &Operation::CReg('c', 2)), Ok(()));
    let st = e.get('q').unwrap();
    assert_eq!(st.num_qubits, 2);
    assert_eq!(st.kets.len(), 1);
    assert_eq!(st.kets[0].get_coefficient().parts(), (1, 0));
    assert_eq!(c.len(), 1);
    assert_eq!(c[0].0, 'c');
    assert!(c[0].1.is_empty());
    assert_eq!(init_state(2, 'q').kets.len(), 1);
}

#[test]
fn counterfeit_coin_sketch() {
    for n in [10usize, 11usize] {
        let mut e = init_ensemble();
        e.add_subsystem(init_state(n + 1, 'q'), 'q');
        let idx = e.position('q').unwrap();
        for i in 0..n {
            e.subsystems[idx].1.h(i);
        }
        for i in 0..n {
            e.subsystems[idx].1.cx(i, n);
        }
        let outcome = e.m('q', n);
        if outcome {
            e.subsystems[idx].1.x(n);
        }
        e.subsystems[idx].1.normalize();
        let mut readout: BTreeMap<usize, usize> = BTreeMap::new();
        for i in 0..n {
            let bit = e.m('q', i);
            readout.insert(i, if bit { 1 } else { 0 });
        }
        assert_eq!(readout.len(), n);
        assert!(readout.values().all(|b| *b == 0 || *b == 1));
    }
}
