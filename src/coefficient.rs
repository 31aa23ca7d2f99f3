//! Amplitudes: purely real or purely imaginary components, and their pairs.
//!
//! Magnitudes are exact integers. A state keeps one shared normalising
//! denominator (see `State::scale`), so every amplitude that the simulator
//! handles is an integer multiple of a common factor.

use vstd::prelude::*;

verus! {

/// The largest magnitude a component may hold; its negation is representable too.
pub const MAX_MAGNITUDE: i64 = 0x7fff_ffff_ffff_ffff;

/// True when `x` can be stored as a component magnitude.
pub open spec fn fits(x: int) -> bool {
    -(MAX_MAGNITUDE as int) <= x <= MAX_MAGNITUDE as int
}

/// The product of two tagged components, as (magnitude, imaginary).
pub open spec fn product(a: (int, bool), b: (int, bool)) -> (int, bool) {
    (if a.1 && b.1 { -(a.0 * b.0) } else { a.0 * b.0 }, a.1 != b.1)
}

/// Multiplication of a tagged component by i.
pub open spec fn times_i(a: (int, bool)) -> (int, bool) {
    if a.1 { (-a.0, false) } else { (a.0, true) }
}

/// Complex conjugate of a tagged component.
pub open spec fn conjugate(a: (int, bool)) -> (int, bool) {
    if a.1 { (-a.0, true) } else { a }
}

/// A tagged component as a Gaussian integer (real part, imaginary part).
pub open spec fn as_complex(a: (int, bool)) -> (int, int) {
    if a.1 { (0, a.0) } else { (a.0, 0) }
}

/// Sum of two Gaussian integers.
pub open spec fn cadd(a: (int, int), b: (int, int)) -> (int, int) {
    (a.0 + b.0, a.1 + b.1)
}

/// Product of two Gaussian integers.
pub open spec fn cmul(a: (int, int), b: (int, int)) -> (int, int) {
    (a.0 * b.0 - a.1 * b.1, a.0 * b.1 + a.1 * b.0)
}

/// Negation of a Gaussian integer.
pub open spec fn cneg(a: (int, int)) -> (int, int) {
    (-a.0, -a.1)
}

/// Complex conjugate of a Gaussian integer.
pub open spec fn cconj(a: (int, int)) -> (int, int) {
    (a.0, -a.1)
}

/// A Gaussian integer multiplied by i.
pub open spec fn ctimes_i(a: (int, int)) -> (int, int) {
    (-a.1, a.0)
}

/// Squared modulus of a Gaussian integer.
pub open spec fn norm_sq(a: (int, int)) -> int {
    a.0 * a.0 + a.1 * a.1
}

/// True when both parts of `a` fit in a component.
pub open spec fn cfits(a: (int, int)) -> bool {
    fits(a.0) && fits(a.1)
}

/// True when every partial result of `cmul(a, b)` fits in a component.
pub open spec fn cmul_fits(a: (int, int), b: (int, int)) -> bool {
    &&& fits(a.0 * b.0) &&& fits(a.1 * b.1) &&& fits(a.0 * b.1) &&& fits(a.1 * b.0)
    &&& fits(a.0 * b.0 - a.1 * b.1) &&& fits(a.0 * b.1 + a.1 * b.0)
}

/// The square of a magnitude that fits stays below 2^126.
pub proof fn lemma_square_bound(x: int)
    requires
        fits(x),
    ensures
        0 <= x * x < 0x4000_0000_0000_0000_0000_0000_0000_0000,
{
    assert(0 <= x * x <= 0x3fff_ffff_ffff_ffff_0000_0000_0000_0001) by (nonlinear_arith)
        requires fits(x);
}

/// Multiplying two components does not depend on their order.
pub proof fn lemma_product_commutes(a: (int, bool), b: (int, bool))
    ensures
        product(a, b) == product(b, a),
{
    assert(a.0 * b.0 == b.0 * a.0) by (nonlinear_arith);
}

/// Complex multiplication distributes over complex addition.
pub proof fn lemma_cmul_distributes(c: (int, int), d: (int, int), e: (int, int))
    ensures
        cmul(c, cadd(d, e)) == cadd(cmul(c, d), cmul(c, e)),
{
    assert(c.0 * (d.0 + e.0) == c.0 * d.0 + c.0 * e.0) by (nonlinear_arith);
    assert(c.1 * (d.1 + e.1) == c.1 * d.1 + c.1 * e.1) by (nonlinear_arith);
    assert(c.0 * (d.1 + e.1) == c.0 * d.1 + c.0 * e.1) by (nonlinear_arith);
    assert(c.1 * (d.0 + e.0) == c.1 * d.0 + c.1 * e.0) by (nonlinear_arith);
}

/// Conjugating twice gives back the original, for a component and for a pair.
pub proof fn lemma_conjugate_involution(a: (int, bool), c: (int, int))
    ensures
        conjugate(conjugate(a)) == a,
        cconj(cconj(c)) == c,
{
}

/// Multiplying a real component by i twice negates it.
pub proof fn lemma_i_squared(r: (int, bool))
    requires
        !r.1,
    ensures
        times_i(times_i(r)) == (-r.0, false),
{
}

/// A purely real or purely imaginary amplitude component.
#[derive(Clone, Copy, Debug, PartialEq, Eq, Structural)]
pub struct FloatCoefficient {
    magnitude: i64,
    imaginary: bool,
}

impl View for FloatCoefficient {
    type V = (int, bool);

    closed spec fn view(&self) -> (int, bool) {
        (self.magnitude as int, self.imaginary)
    }
}

impl FloatCoefficient {
    #[verifier::type_invariant]
    spec fn magnitude_fits(self) -> bool {
        fits(self.magnitude as int)
    }

    /// Checks whether the coefficient is equal to another one.
    pub fn equals_coefficient(&self, other: FloatCoefficient) -> (r: bool)
        ensures
            r == (self@ == other@),
    {
        self.magnitude == other.magnitude && self.imaginary == other.imaginary
    }

    /// Multiplies the coefficient by another one; `i * i` gives `-1`.
    pub fn multiply_by_coefficient(&self, other: FloatCoefficient) -> (r: FloatCoefficient)
        requires
            fits(self@.0 * other@.0),
        ensures
            r@ == product(self@, other@),
    {
        let m = self.magnitude as i128 * other.magnitude as i128;
        let mut new_coeff = FloatCoefficient { magnitude: m as i64, imaginary: false };
        if self.imaginary && other.imaginary {
            new_coeff.negate_magnitude();
        } else if self.imaginary || other.imaginary {
            new_coeff.set_imaginary();
        }
        new_coeff
    }

    /// Adds a coefficient of the same kind.
    pub fn add_to_coefficient(&self, other: FloatCoefficient) -> (r: FloatCoefficient)
        requires
            self@.1 == other@.1,
            fits(self@.0 + other@.0),
        ensures
            r@ == (self@.0 + other@.0, self@.1),
    {
        FloatCoefficient { magnitude: self.magnitude + other.magnitude, imaginary: self.imaginary }
    }

    /// The magnitude of the coefficient.
    pub fn get_magnitude(&self) -> (r: i64)
        ensures
            r == self@.0,
            fits(r as int),
    {
        proof { use_type_invariant(self); }
        self.magnitude
    }

    /// Whether the coefficient is imaginary.
    pub fn get_imaginary(&self) -> (r: bool)
        ensures
            r == self@.1,
    {
        self.imaginary
    }

    /// Sets the magnitude of the coefficient.
    pub fn set_magnitude(&mut self, magnitude: i64)
        requires
            fits(magnitude as int),
        ensures
            final(self)@ == (magnitude as int, old(self)@.1),
    {
        self.magnitude = magnitude;
    }

    /// Makes the coefficient imaginary.
    pub fn set_imaginary(&mut self)
        ensures
            final(self)@ == (old(self)@.0, true),
    {
        proof { use_type_invariant(&*self); }
        self.imaginary = true;
    }

    /// Makes the coefficient real.
    pub fn clear_imaginary(&mut self)
        ensures
            final(self)@ == (old(self)@.0, false),
    {
        proof { use_type_invariant(&*self); }
        self.imaginary = false;
    }

    /// Negates the coefficient.
    pub fn negate_magnitude(&mut self)
        ensures
            final(self)@ == (-old(self)@.0, old(self)@.1),
    {
        proof { use_type_invariant(&*self); }
        self.magnitude = -self.magnitude;
    }

    /// Multiplies the coefficient by i.
    pub fn multiply_by_i(&mut self)
        ensures
            final(self)@ == times_i(old(self)@),
    {
        if self.imaginary {
            self.negate_magnitude();
            self.clear_imaginary();
        } else {
            self.set_imaginary();
        }
    }

    /// Multiplies the coefficient by an integer.
    pub fn multiply_by_number(&mut self, number: i64)
        requires
            fits(old(self)@.0 * number),
        ensures
            final(self)@ == (old(self)@.0 * number, old(self)@.1),
    {
        self.magnitude = (self.magnitude as i128 * number as i128) as i64;
    }

    /// The probabilistic weight of the coefficient: its squared magnitude.
    pub fn to_probability(&self) -> (r: u128)
        ensures
            r == self@.0 * self@.0,
    {
        proof { use_type_invariant(self); }
        let m = self.magnitude as i128;
        assert(0 <= m * m <= 0x3fff_ffff_ffff_ffff_0000_0000_0000_0001) by (nonlinear_arith)
            requires fits(m as int);
        (m * m) as u128
    }

    /// Takes the complex conjugate in place and returns the result.
    pub fn complex_conjugate(&mut self) -> (r: FloatCoefficient)
        ensures
            final(self)@ == conjugate(old(self)@),
            r@ == final(self)@,
    {
        if self.imaginary {
            self.negate_magnitude();
        }
        *self
    }
}

/// Initializes a coefficient.
pub fn create_coefficient(magnitude: i64, imaginary: bool) -> (r: FloatCoefficient)
    requires
        fits(magnitude as int),
    ensures
        r@ == (magnitude as int, imaginary),
{
    FloatCoefficient { magnitude, imaginary }
}


/// A pair of components: a real one and an imaginary one.
#[derive(Clone, Copy, Debug)]
pub struct ComplexCoefficient {
    real_component: FloatCoefficient,
    imaginary_component: FloatCoefficient,
}

impl View for ComplexCoefficient {
    type V = (int, int);

    closed spec fn view(&self) -> (int, int) {
        (self.real_component@.0, self.imaginary_component@.0)
    }
}

/// Initializes a complex coefficient from its real and imaginary components.
pub fn create_complex_coefficient(
    real_component: FloatCoefficient,
    imaginary_component: FloatCoefficient,
) -> (r: ComplexCoefficient)
    requires
        !real_component@.1,
        imaginary_component@.1,
    ensures
        r@ == (real_component@.0, imaginary_component@.0),
{
    ComplexCoefficient { real_component, imaginary_component }
}

/// The complex coefficient with the given parts.
pub fn complex_from_parts(re: i64, im: i64) -> (r: ComplexCoefficient)
    requires
        fits(re as int),
        fits(im as int),
    ensures
        r@ == (re as int, im as int),
{
    ComplexCoefficient {
        real_component: create_coefficient(re, false),
        imaginary_component: create_coefficient(im, true),
    }
}

impl ComplexCoefficient {
    #[verifier::type_invariant]
    spec fn components_typed(self) -> bool {
        !self.real_component@.1 && self.imaginary_component@.1
    }

    /// Both parts of every complex coefficient fit in a component.
    pub fn parts(&self) -> (r: (i64, i64))
        ensures
            r.0 == self@.0,
            r.1 == self@.1,
            cfits(self@),
    {
        (self.real_component.get_magnitude(), self.imaginary_component.get_magnitude())
    }

    /// Checks whether the coefficient is equal to another complex coefficient.
    pub fn equals_complex_coefficient(&self, other: ComplexCoefficient) -> (r: bool)
        ensures
            r == (self@ == other@),
    {
        proof {
            use_type_invariant(self);
            use_type_invariant(&other);
        }
        self.real_component.equals_coefficient(other.real_component)
            && self.imaginary_component.equals_coefficient(other.imaginary_component)
    }

    /// Checks whether one of the components equals the given coefficient.
    pub fn equals_coefficient(&self, other: FloatCoefficient) -> (r: bool)
        ensures
            r == (other@ == (self@.0, false) || other@ == (self@.1, true)),
    {
        proof { use_type_invariant(self); }
        self.real_component.equals_coefficient(other) || self.imaginary_component.equals_coefficient(
            other,
        )
    }

    /// Multiplies the coefficient by a purely real or purely imaginary one.
    pub fn multiply_by_coefficient(&self, other: FloatCoefficient) -> (r: ComplexCoefficient)
        requires
            cmul_fits(self@, as_complex(other@)),
        ensures
            r@ == cmul(self@, as_complex(other@)),
    {
        let other_complex = if other.get_imaginary() {
            complex_from_parts(0, other.get_magnitude())
        } else {
            complex_from_parts(other.get_magnitude(), 0)
        };
        self.multiply_by_complex_coefficient(other_complex)
    }

    /// Multiplies the coefficient by another complex coefficient.
    pub fn multiply_by_complex_coefficient(&self, other: ComplexCoefficient) -> (r:
        ComplexCoefficient)
        requires
            cmul_fits(self@, other@),
        ensures
            r@ == cmul(self@, other@),
    {
        proof {
            use_type_invariant(self);
            use_type_invariant(&other);
            assert(other@.0 * self@.0 == self@.0 * other@.0) by (nonlinear_arith);
            assert(other@.1 * self@.1 == self@.1 * other@.1) by (nonlinear_arith);
            assert(other@.0 * self@.1 == self@.1 * other@.0) by (nonlinear_arith);
            assert(other@.1 * self@.0 == self@.0 * other@.1) by (nonlinear_arith);
        }
        let new_imaginary_component = other.real_component.multiply_by_coefficient(
            self.imaginary_component,
        ).add_to_coefficient(other.imaginary_component.multiply_by_coefficient(self.real_component));
        let mut squared = other.imaginary_component.multiply_by_coefficient(
            self.imaginary_component,
        );
        let new_real_component = other.real_component.multiply_by_coefficient(
            self.real_component,
        ).add_to_coefficient(squared.complex_conjugate());
        ComplexCoefficient {
            real_component: new_real_component,
            imaginary_component: new_imaginary_component,
        }
    }

    /// Adds a purely real or purely imaginary coefficient to the matching component.
    pub fn add_to_coefficient(&self, other: FloatCoefficient) -> (r: ComplexCoefficient)
        requires
            cfits(cadd(self@, as_complex(other@))),
        ensures
            r@ == cadd(self@, as_complex(other@)),
    {
        proof { use_type_invariant(self); }
        if other.get_imaginary() {
            let new_imaginary_component = other.add_to_coefficient(self.imaginary_component);
            ComplexCoefficient {
                real_component: self.real_component,
                imaginary_component: new_imaginary_component,
            }
        } else {
            let new_real_component = other.add_to_coefficient(self.real_component);
            ComplexCoefficient {
                real_component: new_real_component,
                imaginary_component: self.imaginary_component,
            }
        }
    }

    /// Adds another complex coefficient, component by component.
    pub fn add_to_complex_coefficient(&self, other: ComplexCoefficient) -> (r: ComplexCoefficient)
        requires
            cfits(cadd(self@, other@)),
        ensures
            r@ == cadd(self@, other@),
    {
        proof {
            use_type_invariant(self);
            use_type_invariant(&other);
        }
        let new_imaginary_component = other.imaginary_component.add_to_coefficient(
            self.imaginary_component,
        );
        let new_real_component = self.real_component.add_to_coefficient(other.real_component);
        ComplexCoefficient {
            real_component: new_real_component,
            imaginary_component: new_imaginary_component,
        }
    }

    /// The real component.
    pub fn get_real_component(&self) -> (r: FloatCoefficient)
        ensures
            r@ == (self@.0, false),
    {
        proof { use_type_invariant(self); }
        self.real_component
    }

    /// The imaginary component.
    pub fn get_imaginary_component(&self) -> (r: FloatCoefficient)
        ensures
            r@ == (self@.1, true),
    {
        proof { use_type_invariant(self); }
        self.imaginary_component
    }

    /// Sets the real component; it must be tagged real.
    pub fn set_real_component(&mut self, real_component: FloatCoefficient)
        requires
            !real_component@.1,
        ensures
            final(self)@ == (real_component@.0, old(self)@.1),
    {
        proof { use_type_invariant(&*self); }
        self.real_component = real_component;
    }

    /// Sets the imaginary component; it must be tagged imaginary.
    pub fn set_imaginary_component(&mut self, imaginary_component: FloatCoefficient)
        requires
            imaginary_component@.1,
        ensures
            final(self)@ == (old(self)@.0, imaginary_component@.0),
    {
        proof { use_type_invariant(&*self); }
        self.imaginary_component = imaginary_component;
    }

    /// Negates both components.
    pub fn negate_magnitude(&mut self)
        ensures
            final(self)@ == cneg(old(self)@),
    {
        proof { use_type_invariant(&*self); }
        let mut re = self.real_component;
        let mut im = self.imaginary_component;
        re.negate_magnitude();
        im.negate_magnitude();
        self.real_component = re;
        self.imaginary_component = im;
    }

    /// Multiplies the coefficient by i.
    pub fn multiply_by_i(&mut self)
        ensures
            final(self)@ == ctimes_i(old(self)@),
    {
        proof { use_type_invariant(&*self); }
        let mut new_real_component = self.imaginary_component;
        new_real_component.clear_imaginary();
        new_real_component.negate_magnitude();
        let mut new_imaginary_component = self.real_component;
        new_imaginary_component.set_imaginary();
        self.real_component = new_real_component;
        self.imaginary_component = new_imaginary_component;
    }

    /// Multiplies both components by an integer.
    pub fn multiply_by_number(&mut self, number: i64)
        requires
            fits(old(self)@.0 * number),
            fits(old(self)@.1 * number),
        ensures
            final(self)@ == (old(self)@.0 * number, old(self)@.1 * number),
    {
        proof { use_type_invariant(&*self); }
        let mut re = self.real_component;
        let mut im = self.imaginary_component;
        re.multiply_by_number(number);
        im.multiply_by_number(number);
        self.real_component = re;
        self.imaginary_component = im;
    }

    /// The probabilistic weight of the coefficient: its squared modulus.
    pub fn to_probability(&self) -> (r: u128)
        ensures
            r == norm_sq(self@),
    {
        proof { use_type_invariant(self); }
        let re = self.real_component.to_probability();
        let im = self.imaginary_component.to_probability();
        proof {
            use_type_invariant(&self.real_component);
            use_type_invariant(&self.imaginary_component);
            lemma_square_bound(self@.0);
            lemma_square_bound(self@.1);
        }
        re + im
    }

    /// Takes the complex conjugate in place.
    pub fn complex_conjugate(&mut self)
        ensures
            final(self)@ == cconj(old(self)@),
    {
        proof { use_type_invariant(&*self); }
        let mut im = self.imaginary_component;
        im.negate_magnitude();
        self.imaginary_component = im;
    }
}

} // verus!
