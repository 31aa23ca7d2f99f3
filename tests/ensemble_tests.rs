use rustsimulationservice::ensemble::{create_ensemble, Ensemble};
use rustsimulationservice::ket::Ket;
use rustsimulationservice::parser::{init_ensemble, init_ket, init_state};
use rustsimulationservice::state::{create_state, State};

fn create_test_ket() -> Ket {
    init_ket(3)
}

fn summary(s: &State) -> Vec<(Vec<bool>, (i64, i64))> {
    s.kets
        .iter()
        .map(|k| ((0..k.width()).map(|i| k.bit(i)).collect(), k.get_coefficient().parts()))
        .collect()
}

fn bell_ensemble() -> Ensemble {
    let mut e = init_ensemble();
    let mut q = init_state(1, 'q');
    q.h(0);
    e.add_subsystem(q, 'q');
    e.add_subsystem(init_state(1, 'r'), 'r');
    e.cx('q', 0, 'r', 0);
    e
}

#[test]
fn test_create_ensemble() {
    let num_qubits = 3;
    let first_symbol = 'p';
    let second_symbol = 'q';
    let first_state = create_state(vec![create_test_ket(), create_test_ket(), create_test_ket()], num_qubits, first_symbol, None, None, None);
    let second_state = create_state(vec![create_test_ket(), create_test_ket(), create_test_ket()], num_qubits, second_symbol, None, None, None);
    let subsystems: Vec<(char, State)> = vec![(first_symbol, first_state), (second_symbol, second_state)];
    let ensemble = create_ensemble(subsystems);

    let subsystem_p = match ensemble.get(first_symbol) {
        Some(subsystem_p) => subsystem_p,
        None => panic!("could not retrieve subsystem from ensemble"),
    };

    let subsystem_q = match ensemble.get(second_symbol) {
        Some(subsystem_q) => subsystem_q,
        None => panic!("could not retrieve subsystem from ensemble"),
    };

    assert_eq!(subsystem_p.symbol, first_symbol);
    assert_eq!(subsystem_q.symbol, second_symbol);
}

#[test]
fn later_entry_replaces_earlier() {
    let e = create_ensemble(vec![('a', init_state(1, 'a')), ('b', init_state(2, 'b')), ('a', init_state(3, 'x'))]);
    assert_eq!(e.subsystems.len(), 2);
    assert_eq!(e.get('a').unwrap().num_qubits, 3);
    assert_eq!(e.subsystems[0].0, 'a');
    assert_eq!(e.subsystems[1].0, 'b');
    assert!(e.get('z').is_none());
    assert_eq!(e.position('b'), Some(1));
}

#[test]
fn entangled_cx_preserves_source() {
    let mut e = init_ensemble();
    let mut q = init_state(2, 'q');
    q.h(0);
    let before = summary(&q);
    e.add_subsystem(q, 'q');
    e.add_subsystem(init_state(1, 'r'), 'r');
    e.cx('q', 0, 'r', 0);
    assert_eq!(summary(e.get('q').unwrap()), before);
}

#[test]
fn entangled_cx_records_on_target() {
    let e = bell_ensemble();
    let r = e.get('r').unwrap();
    assert_eq!(summary(r), vec![(vec![false], (1, 0)), (vec![true], (1, 0))]);
    assert!(r.kets[0].is_entangled_with('q', 0));
    assert!(r.kets[1].is_entangled_with('q', 0));
    assert_eq!(r.scale, 1);
}

#[test]
fn entangled_cx_multiplies_by_components() {
    let mut e = init_ensemble();
    let q = create_state(
        vec![
            rustsimulationservice::ket::create_ket(
                rustsimulationservice::coefficient::complex_from_parts(2, 0),
                bit_vec::BitVec::from_elem(1, false),
                vec![],
            ),
            rustsimulationservice::ket::create_ket(
                rustsimulationservice::coefficient::complex_from_parts(0, 3),
                bit_vec::BitVec::from_elem(1, true),
                vec![],
            ),
        ],
        1,
        'q',
        None,
        None,
        None,
    );
    e.add_subsystem(q, 'q');
    e.add_subsystem(init_state(1, 'r'), 'r');
    e.cx('q', 0, 'r', 0);
    let r = e.get('r').unwrap();
    assert_eq!(summary(r), vec![(vec![false], (2, 0)), (vec![true], (0, 3))]);
}

#[test]
fn local_cx_within_one_register() {
    let mut e = init_ensemble();
    let mut q = init_state(2, 'q');
    q.x(0);
    e.add_subsystem(q, 'q');
    e.cx('q', 0, 'q', 1);
    assert_eq!(summary(e.get('q').unwrap()), vec![(vec![true, true], (1, 0))]);
}

#[test]
fn collapse_leaves_only_agreeing_records() {
    for draw in 0..2u128 {
        let mut e = bell_ensemble();
        let o = e.measure_with('q', 0, draw);
        assert_eq!(o, draw == 1);
        for (_, st) in e.subsystems.iter() {
            for k in st.kets.iter() {
                assert!(!k.is_entangled_with('q', 0));
            }
        }
        let r = e.get('r').unwrap();
        assert_eq!(r.kets.len(), 1);
        assert_eq!(r.kets[0].bit(0), o);
    }
}

#[test]
fn bell_pair_outcomes_agree() {
    for _ in 0..20 {
        let mut e = bell_ensemble();
        let o = e.m('q', 0);
        let r = e.m('r', 0);
        assert_eq!(r, o);
    }
}

#[test]
fn measure_collapses_measured_register() {
    let mut e = init_ensemble();
    let mut q = init_state(1, 'q');
    q.x(0);
    q.x(0);
    e.add_subsystem(q, 'q');
    assert!(!e.m('q', 0));
    assert_eq!(e.get('q').unwrap().kets.len(), 1);
}
