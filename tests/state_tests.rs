use bit_vec::BitVec;
use rustsimulationservice::coefficient::complex_from_parts;
use rustsimulationservice::ket::{create_ket, Ket};
use rustsimulationservice::parser::init_state;
use rustsimulationservice::state::{create_state, Backend, State};

fn bits(v: &[bool]) -> BitVec {
    let mut b = BitVec::from_elem(v.len(), false);
    for (i, x) in v.iter().enumerate() {
        b.set(i, *x);
    }
    b
}

fn ket(re: i64, im: i64, v: &[bool]) -> Ket {
    create_ket(complex_from_parts(re, im), bits(v), vec![])
}

fn create_test_ket() -> Ket {
    ket(1, 1, &[false, false, false])
}

fn summary(s: &State) -> Vec<(BitVec, (i64, i64))> {
    s.kets.iter().map(|k| (k.get_val(), k.get_coefficient().parts())).collect()
}

#[test]
fn test_create_state() {
    let mut kets: Vec<Ket> = vec![create_test_ket(), create_test_ket(), create_test_ket()];
    let mut num_qubits = 3;
    let mut symbol = 'p';
    let mut state = create_state(kets, num_qubits, symbol, None, None, None);
    assert_eq!(state.num_qubits, num_qubits);
    assert_eq!(state.symbol, symbol);

    kets = vec![create_test_ket(), create_test_ket()];
    num_qubits = 2;
    symbol = 'q';
    state = create_state(kets, num_qubits, symbol, None, None, None);
    assert_eq!(state.num_qubits, num_qubits);
    assert_eq!(state.symbol, symbol);
}

#[test]
fn create_state_defaults() {
    let state = create_state(vec![], 2, 'q', None, None, None);
    assert_eq!(state.backend, Backend::RS);
    assert!(!state.lazy);
    assert!(!state.verbose);
    assert_eq!(state.scale, 1);
    let other = create_state(vec![], 2, 'q', Some(Backend::QASM), Some(true), Some(true));
    assert_eq!(other.backend, Backend::QASM);
    assert!(other.lazy);
    assert!(other.verbose);
}

#[test]
fn x_twice_restores_bits() {
    let mut s = create_state(vec![ket(1, 0, &[false, true]), ket(2, -1, &[true, true])], 2, 'q', None, None, None);
    let before = summary(&s);
    s.x(1);
    assert_eq!(s.kets[0].get_val(), bits(&[false, false]));
    s.x(1);
    assert_eq!(summary(&s), before);
}

#[test]
fn z_leaves_zero_kets_unchanged() {
    let mut s = create_state(vec![ket(3, 4, &[false, true]), ket(5, -6, &[true, true])], 2, 'q', None, None, None);
    s.z(0);
    assert_eq!(s.kets[0].get_coefficient().parts(), (3, 4));
    assert_eq!(s.kets[1].get_coefficient().parts(), (-5, 6));
}

#[test]
fn y_and_cx_apply_to_every_ket() {
    let mut s = create_state(vec![ket(1, 0, &[false, false]), ket(0, 1, &[true, false])], 2, 'q', None, None, None);
    s.cx(0, 1);
    assert_eq!(s.kets[0].get_val(), bits(&[false, false]));
    assert_eq!(s.kets[1].get_val(), bits(&[true, true]));
    s.y(0);
    // first: bit 0 was 0, so i * (1 + 0i) = 0 + 1i; second: -(0 + 1i) * i = 1
    assert_eq!(s.kets[0].get_coefficient().parts(), (0, 1));
    assert_eq!(s.kets[1].get_coefficient().parts(), (1, 0));
    assert_eq!(s.kets[0].get_val(), bits(&[true, false]));
}

#[test]
fn h_splits_a_basis_ket() {
    let mut s = init_state(1, 'q');
    s.h(0);
    assert_eq!(
        summary(&s),
        vec![(bits(&[false]), (1, 0)), (bits(&[true]), (1, 0))]
    );
}

#[test]
fn h_twice_restores_a_single_ket() {
    let mut s = create_state(vec![ket(2, 1, &[false, true])], 2, 'q', None, None, None);
    s.h(1);
    assert_eq!(s.kets.len(), 2);
    s.h(1);
    s.normalize();
    assert_eq!(s.kets.len(), 1);
    assert_eq!(s.kets[0].get_val(), bits(&[false, true]));
    assert_eq!(s.kets[0].get_coefficient().parts(), (-2, -1));

    let mut t = create_state(vec![ket(2, 1, &[false, false])], 2, 'q', None, None, None);
    t.h(1);
    t.h(1);
    assert_eq!(summary(&t), vec![(bits(&[false, false]), (2, 1))]);
}

#[test]
fn h_keeps_one_kets_on_opposite_components() {
    let mut s = create_state(vec![ket(1, 0, &[false]), ket(-1, 0, &[true])], 1, 'q', None, None, None);
    s.h(0);
    assert_eq!(summary(&s), vec![(bits(&[true]), (-1, 0))]);
}

#[test]
fn normalize_groups_and_rescales() {
    let mut s = create_state(
        vec![ket(1, 0, &[false]), ket(0, 1, &[true]), ket(2, 0, &[false])],
        1,
        'q',
        None,
        None,
        None,
    );
    s.normalize();
    assert_eq!(summary(&s), vec![(bits(&[false]), (3, 0)), (bits(&[true]), (0, 1))]);
    assert_eq!(s.scale, 10);
}

#[test]
fn normalize_twice_equals_once() {
    let mut s = create_state(
        vec![ket(1, 2, &[false, true]), ket(3, 0, &[true, true]), ket(-1, 1, &[false, true])],
        2,
        'q',
        None,
        None,
        None,
    );
    s.normalize();
    let once = summary(&s);
    let scale = s.scale;
    s.normalize();
    assert_eq!(summary(&s), once);
    assert_eq!(s.scale, scale);
}

#[test]
fn components_and_weights() {
    let s = create_state(vec![ket(3, 4, &[false]), ket(1, 0, &[true]), ket(0, -2, &[true])], 1, 'q', None, None, None);
    let [alpha, beta] = s.get_components(0);
    assert_eq!(alpha.parts(), (3, 4));
    assert_eq!(beta.parts(), (1, -2));
    assert_eq!(s.weights(0), (25, 5));
    assert_eq!(s.total_magnitude(), Some(10));
}

#[test]
fn measure_with_draw_picks_outcome() {
    let mut a = create_state(vec![ket(1, 0, &[false]), ket(1, 0, &[true])], 1, 'q', None, None, None);
    assert!(!a.measure_with(0, 0));
    assert_eq!(summary(&a), vec![(bits(&[false]), (1, 0))]);
    let mut b = create_state(vec![ket(1, 0, &[false]), ket(1, 0, &[true])], 1, 'q', None, None, None);
    assert!(b.measure_with(0, 1));
    assert_eq!(summary(&b), vec![(bits(&[true]), (1, 0))]);
}

#[test]
fn measure_is_certain_when_one_weight_is_zero() {
    for _ in 0..20 {
        let mut zero = create_state(vec![ket(2, 0, &[false, true])], 2, 'q', None, None, None);
        assert!(!zero.m(0));
        assert!(zero.m(1));
        assert_eq!(zero.kets.len(), 1);
    }
}

#[test]
fn remove_ket_by_bits() {
    let mut s = create_state(vec![ket(1, 0, &[false]), ket(2, 0, &[true]), ket(3, 0, &[true])], 1, 'q', None, None, None);
    s.remove_ket(ket(9, 9, &[true]));
    assert_eq!(summary(&s), vec![(bits(&[false]), (1, 0)), (bits(&[true]), (3, 0))]);
    s.add_ket(ket(4, 0, &[false]));
    assert_eq!(s.kets.len(), 3);
}

#[test]
fn phase_kick() {
    let mut s = init_state(1, 'q');
    s.x(0);
    s.z(0);
    assert_eq!(summary(&s), vec![(bits(&[true]), (-1, 0))]);
}

#[test]
fn deterministic_measure_after_double_hadamard() {
    let mut s = init_state(1, 'q');
    s.h(0);
    s.h(0);
    s.normalize();
    assert!(!s.m(0));
}

#[test]
fn prune_drops_disagreeing_kets() {
    let mut a = ket(1, 0, &[false]);
    a.entangle(true, 'p', 0);
    let mut b = ket(1, 0, &[true]);
    b.entangle(false, 'p', 0);
    let c = ket(5, 0, &[true]);
    let mut s = create_state(vec![a, b, c], 1, 'q', None, None, None);
    s.prune('p', 0, true);
    assert_eq!(s.kets.len(), 2);
    assert!(!s.kets[0].is_entangled());
    assert_eq!(s.kets[1].get_coefficient().parts(), (5, 0));
}

#[test]
fn well_formedness_check() {
    assert!(init_state(2, 'q').is_well_formed());
    let bad = create_state(vec![ket(1, 0, &[false])], 2, 'q', None, None, None);
    assert!(!bad.is_well_formed());
}
