use bit_vec::BitVec;
use rustsimulationservice::coefficient::{
    complex_from_parts, create_coefficient, create_complex_coefficient, ComplexCoefficient,
};
use rustsimulationservice::ket::{create_entanglement, create_ket, Ket};

fn bits(v: &[bool]) -> BitVec {
    let mut b = BitVec::from_elem(v.len(), false);
    for (i, x) in v.iter().enumerate() {
        b.set(i, *x);
    }
    b
}

#[test]
fn test_create_ket() {
    let mut imaginary_coeff = create_coefficient(1, true);
    let mut real_coeff = create_coefficient(1, false);
    let mut complex_coeff: ComplexCoefficient = create_complex_coefficient(real_coeff, imaginary_coeff);
    let mut init_state = BitVec::from_elem(3, false);
    let mut ket: Ket = create_ket(complex_coeff, init_state.clone(), vec![]);
    assert!(ket.get_coefficient().equals_complex_coefficient(complex_coeff));
    assert_eq!(ket.get_val(), init_state);

    imaginary_coeff = create_coefficient(0, true);
    real_coeff = create_coefficient(5, false);
    complex_coeff = create_complex_coefficient(real_coeff, imaginary_coeff);
    init_state = BitVec::from_elem(3, false);
    ket = create_ket(complex_coeff, init_state.clone(), vec![]);
    assert!(ket.get_coefficient().equals_complex_coefficient(complex_coeff));
    assert_eq!(ket.get_val(), init_state);
}

#[test]
fn entanglement_getters() {
    let e = create_entanglement(true, 'q', 2);
    assert_eq!(e.get_outcome(), true);
    assert_eq!(e.get_system(), 'q');
    assert_eq!(e.get_qubit(), 2);
}

#[test]
fn x_flips_one_bit() {
    let mut k = create_ket(complex_from_parts(1, 0), bits(&[false, true, false]), vec![]);
    k.x(0);
    assert_eq!(k.get_val(), bits(&[true, true, false]));
    k.x(1);
    assert_eq!(k.get_val(), bits(&[true, false, false]));
    assert_eq!(k.width(), 3);
    assert!(k.bit(0));
    assert!(!k.bit(2));
}

#[test]
fn cx_flips_target_only_when_control_set() {
    let mut k = create_ket(complex_from_parts(1, 0), bits(&[false, false]), vec![]);
    k.cx(0, 1);
    assert_eq!(k.get_val(), bits(&[false, false]));
    k.x(0);
    k.cx(0, 1);
    assert_eq!(k.get_val(), bits(&[true, true]));
}

#[test]
fn z_negates_only_on_one() {
    let mut k = create_ket(complex_from_parts(2, 3), bits(&[false, true]), vec![]);
    k.z(0);
    assert_eq!(k.get_coefficient().parts(), (2, 3));
    k.z(1);
    assert_eq!(k.get_coefficient().parts(), (-2, -3));
}

#[test]
fn y_is_z_then_x_then_times_i() {
    let mut k = create_ket(complex_from_parts(2, 3), bits(&[true]), vec![]);
    k.y(0);
    // z: (-2, -3); times i: (3, -2)
    assert_eq!(k.get_coefficient().parts(), (3, -2));
    assert_eq!(k.get_val(), bits(&[false]));
}

#[test]
fn h_returns_two_kets() {
    let e = create_entanglement(true, 'r', 0);
    let mut k = create_ket(complex_from_parts(1, 2), bits(&[true, false]), vec![e]);
    let [same, flipped] = k.h(0);
    assert_eq!(same.get_val(), bits(&[true, false]));
    assert_eq!(same.get_coefficient().parts(), (-1, -2));
    assert!(!same.is_entangled());
    assert_eq!(flipped.get_val(), bits(&[false, false]));
    assert_eq!(flipped.get_coefficient().parts(), (1, 2));
    assert!(flipped.is_entangled_with('r', 0));
    assert_eq!(k.get_coefficient().parts(), (-1, -2));
}

#[test]
fn should_collapse_absorbs_first_record() {
    let mut k = create_ket(complex_from_parts(1, 0), bits(&[false]), vec![]);
    assert!(!k.is_entangled());
    k.entangle(true, 'q', 0);
    k.entangle(false, 'r', 1);
    assert!(k.is_entangled());
    assert!(k.is_entangled_with('q', 0));
    assert!(!k.is_entangled_with('q', 1));
    assert!(!k.should_collapse(true, 'q', 0));
    assert!(!k.is_entangled_with('q', 0));
    assert!(k.should_collapse(true, 'r', 1));
    assert!(!k.is_entangled());
}

#[test]
fn equality_compares_bits_only() {
    let a = create_ket(complex_from_parts(1, 0), bits(&[true, false]), vec![]);
    let b = create_ket(complex_from_parts(7, 7), bits(&[true, false]), vec![]);
    let c = create_ket(complex_from_parts(1, 0), bits(&[false, false]), vec![]);
    assert!(a.equals(b.clone()));
    assert!(!a.equals(c));
    assert_eq!(a.get_probability(), 1);
    assert_eq!(b.get_probability(), 98);
}

#[test]
fn copy_entanglement_appends_records() {
    let src = create_ket(
        complex_from_parts(1, 0),
        bits(&[false]),
        vec![create_entanglement(false, 'q', 0)],
    );
    let mut dst = create_ket(complex_from_parts(1, 0), bits(&[true]), vec![]);
    src.copy_entanglement_to(&mut dst);
    assert!(dst.is_entangled_with('q', 0));
    let mut v = dst.clone();
    v.set_val(bits(&[false]));
    v.set_coefficient(complex_from_parts(0, 4));
    assert_eq!(v.get_val(), bits(&[false]));
    assert_eq!(v.get_coefficient().parts(), (0, 4));
    assert_eq!(dst.get_val(), bits(&[true]));
}
