//! A single ket: an amplitude, a bit pattern, and the entanglement records
//! that predicate its existence.

use bit_vec::BitVec;
use vstd::prelude::*;
use crate::bits::{bits_of, bit_at, set_bit, copy_bits, same_bits};
use crate::coefficient::{ComplexCoefficient, cneg, ctimes_i, norm_sq};

verus! {

/// What a ket stands for: its amplitude as a Gaussian integer, its bits, and its
/// entanglement records as (outcome, system, qubit).
pub struct KetModel {
    pub coeff: (int, int),
    pub bits: Seq<bool>,
    pub ents: Seq<(bool, char, usize)>,
}

/// The bit pattern with bit `q` flipped.
pub open spec fn flip(bits: Seq<bool>, q: int) -> Seq<bool> {
    bits.update(q, !bits[q])
}

/// A ket after Pauli X on `q`.
pub open spec fn x_ket(k: KetModel, q: int) -> KetModel {
    KetModel { bits: flip(k.bits, q), ..k }
}

/// A ket after a controlled X from `s` to `t`.
pub open spec fn cx_ket(k: KetModel, s: int, t: int) -> KetModel {
    if k.bits[s] { x_ket(k, t) } else { k }
}

/// A ket after Pauli Z on `q`.
pub open spec fn z_ket(k: KetModel, q: int) -> KetModel {
    KetModel { coeff: if k.bits[q] { cneg(k.coeff) } else { k.coeff }, ..k }
}

/// A ket after Pauli Y on `q`: Z, then X, then the amplitude times i.
pub open spec fn y_ket(k: KetModel, q: int) -> KetModel {
    KetModel { coeff: ctimes_i(z_ket(k, q).coeff), bits: flip(k.bits, q), ents: k.ents }
}

/// True when the record `e` is about qubit `qubit` of register `system`.
pub open spec fn on(e: (bool, char, usize), system: char, qubit: usize) -> bool {
    e.1 == system && e.2 == qubit
}

/// True when some record is about the given qubit.
pub open spec fn entangled_with(ents: Seq<(bool, char, usize)>, system: char, qubit: usize) -> bool {
    exists|i: int| 0 <= i < ents.len() && on(#[trigger] ents[i], system, qubit)
}

/// True when some record about the given qubit asks for the other outcome.
pub open spec fn collapses(
    ents: Seq<(bool, char, usize)>,
    outcome: bool,
    system: char,
    qubit: usize,
) -> bool {
    exists|i: int| 0 <= i < ents.len() && on(#[trigger] ents[i], system, qubit) && ents[i].0 != outcome
}

/// Index of the first record about the given qubit, or the length if there is none.
pub open spec fn first_on(ents: Seq<(bool, char, usize)>, system: char, qubit: usize) -> int
    decreases ents.len(),
{
    if ents.len() == 0 {
        0
    } else if on(ents[0], system, qubit) {
        0
    } else {
        1 + first_on(ents.drop_first(), system, qubit)
    }
}

/// The records with the first one about the given qubit taken out.
pub open spec fn absorb(ents: Seq<(bool, char, usize)>, system: char, qubit: usize) -> Seq<
    (bool, char, usize),
> {
    let j = first_on(ents, system, qubit);
    if j < ents.len() {
        ents.remove(j)
    } else {
        ents
    }
}

/// The first of the two kets that a Hadamard on `q` makes: the same bits, no
/// records, the amplitude negated when bit `q` is set.
pub open spec fn h_same(k: KetModel, q: int) -> KetModel {
    KetModel { coeff: if k.bits[q] { cneg(k.coeff) } else { k.coeff }, bits: k.bits, ents: seq![] }
}

/// The second of the two kets that a Hadamard on `q` makes: bit `q` flipped,
/// the records and amplitude kept.
pub open spec fn h_flipped(k: KetModel, q: int) -> KetModel {
    KetModel { coeff: k.coeff, bits: flip(k.bits, q), ents: k.ents }
}

/// The views of a sequence of records.
pub open spec fn ents_view(v: Seq<Entanglement>) -> Seq<(bool, char, usize)> {
    v.map_values(|e: Entanglement| e@)
}

/// `first_on` is an index of the records, or their length.
pub proof fn lemma_first_on_range(ents: Seq<(bool, char, usize)>, system: char, qubit: usize)
    ensures
        0 <= first_on(ents, system, qubit) <= ents.len(),
    decreases ents.len(),
{
    if ents.len() > 0 {
        lemma_first_on_range(ents.drop_first(), system, qubit);
    }
}

/// Proof that `first_on` is the index that a left-to-right search finds.
pub proof fn lemma_first_on(ents: Seq<(bool, char, usize)>, system: char, qubit: usize, j: int)
    requires
        0 <= j <= ents.len(),
        forall|k: int| 0 <= k < j ==> !on(#[trigger] ents[k], system, qubit),
        j == ents.len() || on(ents[j], system, qubit),
    ensures
        first_on(ents, system, qubit) == j,
    decreases j,
{
    if j > 0 {
        let rest = ents.drop_first();
        assert forall|k: int| 0 <= k < j - 1 implies !on(#[trigger] rest[k], system, qubit) by {
            assert(rest[k] == ents[k + 1]);
        }
        assert(!on(ents[0], system, qubit));
        lemma_first_on(rest, system, qubit, j - 1);
    }
}

/// A record that a ket stays in the sum only if the named qubit is measured to `outcome`.
#[derive(Clone, Copy, Debug, PartialEq, Eq, Structural)]
pub struct Entanglement {
    outcome: bool,
    system: char,
    qubit: usize,
}

impl View for Entanglement {
    type V = (bool, char, usize);

    closed spec fn view(&self) -> (bool, char, usize) {
        (self.outcome, self.system, self.qubit)
    }
}

/// Initializes an entanglement record.
pub fn create_entanglement(outcome: bool, system: char, qubit: usize) -> (r: Entanglement)
    ensures
        r@ == (outcome, system, qubit),
{
    Entanglement { outcome, system, qubit }
}

impl Entanglement {
    /// The register that owns the entangled qubit.
    pub fn get_system(&self) -> (r: char)
        ensures
            r == self@.1,
    {
        self.system
    }

    /// The entangled qubit.
    pub fn get_qubit(&self) -> (r: usize)
        ensures
            r == self@.2,
    {
        self.qubit
    }

    /// The outcome for which the ket stays.
    pub fn get_outcome(&self) -> (r: bool)
        ensures
            r == self@.0,
    {
        self.outcome
    }
}

/// A copy of a list of records.
fn copy_entanglements(v: &Vec<Entanglement>) -> (r: Vec<Entanglement>)
    ensures
        r@ == v@,
{
    let mut r: Vec<Entanglement> = Vec::new();
    let mut i: usize = 0;
    while i < v.len()
        invariant
            i <= v.len(),
            r@ == v@.subrange(0, i as int),
        decreases v.len() - i,
    {
        r.push(v[i]);
        i += 1;
        assert(r@ =~= v@.subrange(0, i as int));
    }
    assert(r@ =~= v@);
    r
}

/// A basis term of a register's state.
#[derive(Debug)]
pub struct Ket {
    coefficient: ComplexCoefficient,
    val: BitVec,
    entanglements: Vec<Entanglement>,
}

impl View for Ket {
    type V = KetModel;

    closed spec fn view(&self) -> KetModel {
        KetModel {
            coeff: self.coefficient@,
            bits: bits_of(self.val),
            ents: ents_view(self.entanglements@),
        }
    }
}

/// Initializes a ket with an amplitude, a bit pattern and records.
pub fn create_ket(coeff: ComplexCoefficient, val: BitVec, entanglements: Vec<Entanglement>) -> (r:
    Ket)
    ensures
        r@ == (KetModel { coeff: coeff@, bits: bits_of(val), ents: ents_view(entanglements@) }),
{
    Ket { coefficient: coeff, val, entanglements }
}

impl Clone for Ket {
    fn clone(&self) -> (r: Ket)
        ensures
            r@ == self@,
    {
        self.duplicate()
    }
}

impl Ket {
    /// A copy of the ket.
    pub fn duplicate(&self) -> (r: Ket)
        ensures
            r@ == self@,
    {
        Ket {
            coefficient: self.coefficient,
            val: copy_bits(&self.val),
            entanglements: copy_entanglements(&self.entanglements),
        }
    }

    /// Two kets are equal when their bit patterns are; amplitudes and records are ignored.
    pub fn equals(&self, other: Ket) -> (r: bool)
        ensures
            r == (self@.bits == other@.bits),
    {
        same_bits(&self.val, &other.val)
    }

    /// True when the two kets have the same bit pattern.
    pub fn same_bits_as(&self, other: &Ket) -> (r: bool)
        ensures
            r == (self@.bits == other@.bits),
    {
        same_bits(&self.val, &other.val)
    }

    /// The bit pattern of the ket.
    pub fn get_val(&self) -> (r: BitVec)
        ensures
            bits_of(r) == self@.bits,
    {
        copy_bits(&self.val)
    }

    /// The amplitude of the ket.
    pub fn get_coefficient(&self) -> (r: ComplexCoefficient)
        ensures
            r@ == self@.coeff,
    {
        self.coefficient
    }

    /// The number of bits of the ket.
    pub fn width(&self) -> (r: usize)
        ensures
            r == self@.bits.len(),
    {
        crate::bits::bits_len(&self.val)
    }

    /// The bit at `qubit`.
    pub fn bit(&self, qubit: usize) -> (r: bool)
        requires
            qubit < self@.bits.len(),
        ensures
            r == self@.bits[qubit as int],
    {
        match bit_at(&self.val, qubit) {
            Some(b) => b,
            None => false,
        }
    }

    /// Sets the bit pattern of the ket.
    pub fn set_val(&mut self, val: BitVec)
        ensures
            final(self)@ == (KetModel { bits: bits_of(val), ..old(self)@ }),
    {
        self.val = val;
    }

    /// Sets the amplitude of the ket.
    pub fn set_coefficient(&mut self, coeff: ComplexCoefficient)
        ensures
            final(self)@ == (KetModel { coeff: coeff@, ..old(self)@ }),
    {
        self.coefficient = coeff;
    }

    /// The probabilistic weight of the ket: the squared modulus of its amplitude.
    pub fn get_probability(&self) -> (r: u128)
        ensures
            r == norm_sq(self@.coeff),
    {
        self.coefficient.to_probability()
    }

    /// Pauli X: flips bit `qubit`.
    pub fn x(&mut self, qubit: usize)
        requires
            qubit < old(self)@.bits.len(),
        ensures
            final(self)@ == x_ket(old(self)@, qubit as int),
    {
        let b = self.bit(qubit);
        set_bit(&mut self.val, qubit, !b);
    }

    /// Controlled X: flips bit `target` when bit `source` is set.
    pub fn cx(&mut self, source: usize, target: usize)
        requires
            source < old(self)@.bits.len(),
            target < old(self)@.bits.len(),
        ensures
            final(self)@ == cx_ket(old(self)@, source as int, target as int),
    {
        if self.bit(source) {
            self.x(target);
        }
    }

    /// Pauli Z: negates the amplitude when bit `qubit` is set.
    pub fn z(&mut self, qubit: usize)
        requires
            qubit < old(self)@.bits.len(),
        ensures
            final(self)@ == z_ket(old(self)@, qubit as int),
    {
        if self.bit(qubit) {
            self.coefficient.negate_magnitude();
        }
    }

    /// Pauli Y: a Z, then an X, then the amplitude times i.
    pub fn y(&mut self, qubit: usize)
        requires
            qubit < old(self)@.bits.len(),
        ensures
            final(self)@ == y_ket(old(self)@, qubit as int),
    {
        self.z(qubit);
        self.x(qubit);
        self.coefficient.multiply_by_i();
    }

    /// True when the ket's existence depends on some measurement.
    pub fn is_entangled(&self) -> (r: bool)
        ensures
            r == (self@.ents.len() > 0),
    {
        self.entanglements.len() > 0
    }

    /// True when the ket's existence depends on measuring the given qubit.
    pub fn is_entangled_with(&self, system: char, qubit: usize) -> (r: bool)
        ensures
            r == entangled_with(self@.ents, system, qubit),
    {
        let ghost ents = self@.ents;
        let mut i: usize = 0;
        while i < self.entanglements.len()
            invariant
                i <= self.entanglements.len(),
                ents == ents_view(self.entanglements@),
                forall|k: int| 0 <= k < i ==> !on(#[trigger] ents[k], system, qubit),
            decreases self.entanglements.len() - i,
        {
            let e = &self.entanglements[i];
            if e.system == system && e.qubit == qubit {
                assert(on(ents[i as int], system, qubit));
                return true;
            }
            i += 1;
        }
        false
    }

    /// Records that the ket stays only if the given qubit is measured to `outcome`.
    pub fn entangle(&mut self, outcome: bool, system: char, qubit: usize)
        ensures
            final(self)@ == (KetModel {
                ents: old(self)@.ents.push((outcome, system, qubit)),
                ..old(self)@
            }),
    {
        self.entanglements.push(create_entanglement(outcome, system, qubit));
        assert(ents_view(self.entanglements@) =~= old(self)@.ents.push((outcome, system, qubit)));
    }

    /// After the given qubit was measured to `outcome`: true when some record about
    /// it asks for the other outcome. The first record about it is taken out.
    pub fn should_collapse(&mut self, outcome: bool, system: char, qubit: usize) -> (r: bool)
        ensures
            r == collapses(old(self)@.ents, outcome, system, qubit),
            final(self)@ == (KetModel {
                ents: absorb(old(self)@.ents, system, qubit),
                ..old(self)@
            }),
    {
        let ghost ents = self@.ents;
        let mut should_collapse = false;
        let mut first: usize = self.entanglements.len();
        let mut i: usize = 0;
        while i < self.entanglements.len()
            invariant
                i <= self.entanglements.len(),
                first <= self.entanglements.len(),
                ents == ents_view(self.entanglements@),
                self.entanglements@ == old(self).entanglements@,
                first == self.entanglements.len() ==> forall|k: int|
                    0 <= k < i ==> !on(#[trigger] ents[k], system, qubit),
                first < self.entanglements.len() ==> first < i && on(ents[first as int], system, qubit)
                    && forall|k: int| 0 <= k < first ==> !on(#[trigger] ents[k], system, qubit),
                should_collapse == exists|k: int|
                    0 <= k < i && on(#[trigger] ents[k], system, qubit) && ents[k].0 != outcome,
            decreases self.entanglements.len() - i,
        {
            let e = self.entanglements[i];
            if e.system == system && e.qubit == qubit {
                if first == self.entanglements.len() {
                    first = i;
                }
                if e.outcome != outcome {
                    assert(on(ents[i as int], system, qubit) && ents[i as int].0 != outcome);
                    should_collapse = true;
                }
            }
            i += 1;
        }
        proof {
            lemma_first_on(ents, system, qubit, first as int);
        }
        if first < self.entanglements.len() {
            self.entanglements.remove(first);
            assert(ents_view(self.entanglements@) =~= ents.remove(first as int));
        }
        should_collapse
    }

    /// Appends the ket's records to another ket.
    pub fn copy_entanglement_to(&self, other_ket: &mut Ket)
        ensures
            final(other_ket)@ == (KetModel { ents: old(other_ket)@.ents + self@.ents, ..old(other_ket)@ }),
    {
        let mut i: usize = 0;
        while i < self.entanglements.len()
            invariant
                i <= self.entanglements.len(),
                other_ket@ == (KetModel {
                    ents: old(other_ket)@.ents + self@.ents.subrange(0, i as int),
                    ..old(other_ket)@
                }),
            decreases self.entanglements.len() - i,
        {
            let e = self.entanglements[i];
            other_ket.entangle(e.outcome, e.system, e.qubit);
            assert(self@.ents[i as int] == (e.outcome, e.system, e.qubit));
            assert(old(other_ket)@.ents + self@.ents.subrange(0, i + 1) =~= (old(other_ket)@.ents
                + self@.ents.subrange(0, i as int)).push((e.outcome, e.system, e.qubit)));
            i += 1;
        }
        assert(self@.ents.subrange(0, i as int) =~= self@.ents);
    }

    /// Hadamard on `qubit`: returns the kept-bit copy without records and the
    /// flipped-bit copy with them. The kept-bit amplitude is negated when the bit
    /// was set, and the ket itself takes that amplitude too.
    pub fn h(&mut self, qubit: usize) -> (r: [Ket; 2])
        requires
            qubit < old(self)@.bits.len(),
        ensures
            final(self)@ == (KetModel { coeff: h_same(old(self)@, qubit as int).coeff, ..old(self)@ }),
            r[0]@ == h_same(old(self)@, qubit as int),
            r[1]@ == h_flipped(old(self)@, qubit as int),
    {
        let mut new_ket = self.duplicate();
        new_ket.x(qubit);
        if self.bit(qubit) {
            self.coefficient.negate_magnitude();
        }
        let same = Ket { coefficient: self.coefficient, val: copy_bits(&self.val), entanglements: Vec::new() };
        assert(ents_view(same.entanglements@) =~= seq![]);
        [same, new_ket]
    }
}

} // verus!
