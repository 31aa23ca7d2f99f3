use rustsimulationservice::coefficient::{
    complex_from_parts, create_coefficient, create_complex_coefficient, ComplexCoefficient,
    FloatCoefficient,
};

fn parts(c: &ComplexCoefficient) -> (i64, i64) {
    c.parts()
}

#[test]
fn test_create_coefficient() {
    let mut magnitude: i64 = 1;
    let mut imaginary: bool = true;
    let mut coeff: FloatCoefficient = create_coefficient(magnitude, imaginary);
    assert_eq!(coeff.get_magnitude(), magnitude);
    assert_eq!(coeff.get_imaginary(), imaginary);

    magnitude = 5;
    imaginary = false;
    coeff = create_coefficient(magnitude, imaginary);
    assert_eq!(coeff.get_magnitude(), magnitude);
    assert_eq!(coeff.get_imaginary(), imaginary);
}

#[test]
fn test_equals_coefficient() {
    let coeff = create_coefficient(1, true);
    let other = create_coefficient(1, true);
    assert!(coeff.equals_coefficient(other));

    let different = create_coefficient(2, false);
    assert!(!coeff.equals_coefficient(different));
}

#[test]
fn multiply_is_commutative() {
    let pairs = [
        (create_coefficient(3, false), create_coefficient(-4, true)),
        (create_coefficient(2, true), create_coefficient(5, true)),
        (create_coefficient(-7, false), create_coefficient(6, false)),
    ];
    for (a, b) in pairs.iter() {
        let ab = a.multiply_by_coefficient(*b);
        let ba = b.multiply_by_coefficient(*a);
        assert_eq!(ab, ba);
    }
}

#[test]
fn multiply_of_two_imaginary_components_is_negative_real() {
    let a = create_coefficient(2, true);
    let b = create_coefficient(5, true);
    let r = a.multiply_by_coefficient(b);
    assert_eq!(r.get_magnitude(), -10);
    assert!(!r.get_imaginary());
    let m = create_coefficient(3, false).multiply_by_coefficient(create_coefficient(4, true));
    assert_eq!(m.get_magnitude(), 12);
    assert!(m.get_imaginary());
}

#[test]
fn complex_multiply_distributes() {
    let c = complex_from_parts(2, -3);
    let d = complex_from_parts(1, 4);
    let e = complex_from_parts(-5, 2);
    let left = c.multiply_by_complex_coefficient(d.add_to_complex_coefficient(e));
    let right = c
        .multiply_by_complex_coefficient(d)
        .add_to_complex_coefficient(c.multiply_by_complex_coefficient(e));
    assert!(left.equals_complex_coefficient(right));
    // (2 - 3i)(-4 + 6i) = -8 + 12i + 12i - 18i^2 = 10 + 24i
    assert_eq!(parts(&left), (10, 24));
}

#[test]
fn complex_multiply_exact_value() {
    let c = complex_from_parts(1, 2);
    let d = complex_from_parts(3, 4);
    // (1 + 2i)(3 + 4i) = 3 + 4i + 6i + 8i^2 = -5 + 10i
    assert_eq!(parts(&c.multiply_by_complex_coefficient(d)), (-5, 10));
    let by_real = c.multiply_by_coefficient(create_coefficient(3, false));
    assert_eq!(parts(&by_real), (3, 6));
    let by_imag = c.multiply_by_coefficient(create_coefficient(2, true));
    assert_eq!(parts(&by_imag), (-4, 2));
}

#[test]
fn conjugate_twice_is_identity() {
    let mut a = create_coefficient(7, true);
    let once = a.complex_conjugate();
    assert_eq!(once.get_magnitude(), -7);
    let twice = a.complex_conjugate();
    assert_eq!(twice, create_coefficient(7, true));

    let mut r = create_coefficient(4, false);
    assert_eq!(r.complex_conjugate(), create_coefficient(4, false));

    let mut c = complex_from_parts(3, -8);
    c.complex_conjugate();
    assert_eq!(parts(&c), (3, 8));
    c.complex_conjugate();
    assert_eq!(parts(&c), (3, -8));
}

#[test]
fn i_squared_negates_a_real_coefficient() {
    let mut r = create_coefficient(9, false);
    r.multiply_by_i();
    assert_eq!(r, create_coefficient(9, true));
    r.multiply_by_i();
    assert_eq!(r, create_coefficient(-9, false));

    let mut c = complex_from_parts(2, 5);
    c.multiply_by_i();
    assert_eq!(parts(&c), (-5, 2));
}

#[test]
fn add_routes_by_tag() {
    let c = complex_from_parts(1, 1);
    assert_eq!(parts(&c.add_to_coefficient(create_coefficient(4, true))), (1, 5));
    assert_eq!(parts(&c.add_to_coefficient(create_coefficient(-3, false))), (-2, 1));
    let sum = create_coefficient(2, false).add_to_coefficient(create_coefficient(5, false));
    assert_eq!(sum, create_coefficient(7, false));
}

#[test]
fn probabilities_are_squared_magnitudes() {
    assert_eq!(create_coefficient(-6, true).to_probability(), 36);
    assert_eq!(complex_from_parts(3, -4).to_probability(), 25);
}

#[test]
fn components_and_setters() {
    let mut c = create_complex_coefficient(create_coefficient(2, false), create_coefficient(3, true));
    assert_eq!(c.get_real_component(), create_coefficient(2, false));
    assert_eq!(c.get_imaginary_component(), create_coefficient(3, true));
    assert!(c.equals_coefficient(create_coefficient(3, true)));
    assert!(!c.equals_coefficient(create_coefficient(3, false)));
    c.set_real_component(create_coefficient(-1, false));
    c.set_imaginary_component(create_coefficient(8, true));
    assert_eq!(parts(&c), (-1, 8));
    c.negate_magnitude();
    assert_eq!(parts(&c), (1, -8));
    c.multiply_by_number(3);
    assert_eq!(parts(&c), (3, -24));

    let mut f = create_coefficient(4, false);
    f.set_magnitude(-2);
    f.set_imaginary();
    assert_eq!(f, create_coefficient(-2, true));
    f.clear_imaginary();
    f.negate_magnitude();
    f.multiply_by_number(5);
    assert_eq!(f, create_coefficient(10, false));
}
