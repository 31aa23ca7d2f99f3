//! The state of one register: an ordered sum of kets sharing one normalising
//! denominator.

use rand::Rng;
use vstd::prelude::*;
use crate::coefficient::{
    ComplexCoefficient, MAX_MAGNITUDE, cadd, cneg, complex_from_parts, norm_sq,
};
use crate::ket::{
    Ket, KetModel, flip, absorb, collapses, cx_ket, entangled_with, first_on, h_flipped, h_same, on,
    lemma_first_on_range,
    x_ket, y_ket, z_ket,
};

verus! {

/// The targets that a register may be simulated on; this simulator treats them alike.
#[derive(Clone, Copy, Debug, PartialEq, Eq, Structural)]
pub enum Backend {
    X86,
    WASM,
    RS,
    QMASM,
    QASM,
    DELEGATED,
}

/// The models of a sequence of kets.
pub open spec fn models(kets: Seq<Ket>) -> Seq<KetModel> {
    kets.map_values(|k: Ket| k@)
}

/// Absolute value.
pub open spec fn abs(x: int) -> int {
    if x < 0 { -x } else { x }
}

/// Sum of the absolute values of both parts of a Gaussian integer.
pub open spec fn cabs(c: (int, int)) -> int {
    abs(c.0) + abs(c.1)
}

/// Sum of `cabs` over the amplitudes of all kets: a bound on every sum of them.
pub open spec fn mass(m: Seq<KetModel>) -> int
    decreases m.len(),
{
    if m.len() == 0 {
        0
    } else {
        mass(m.drop_last()) + cabs(m.last().coeff)
    }
}

/// True when every ket has `n` bits.
pub open spec fn all_width(m: Seq<KetModel>, n: nat) -> bool {
    forall|i: int| 0 <= i < m.len() ==> (#[trigger] m[i]).bits.len() == n
}

/// Sum of the amplitudes of the kets whose bit `q` equals `b`.
pub open spec fn component(m: Seq<KetModel>, q: int, b: bool) -> (int, int)
    decreases m.len(),
{
    if m.len() == 0 {
        (0, 0)
    } else if m.last().bits[q] == b {
        cadd(component(m.drop_last(), q, b), m.last().coeff)
    } else {
        component(m.drop_last(), q, b)
    }
}

/// The kets whose bit `q` equals `b`, in order.
pub open spec fn select(m: Seq<KetModel>, q: int, b: bool) -> Seq<KetModel>
    decreases m.len(),
{
    if m.len() == 0 {
        seq![]
    } else if m.last().bits[q] == b {
        select(m.drop_last(), q, b).push(m.last())
    } else {
        select(m.drop_last(), q, b)
    }
}

/// Every ket replaced by the two kets of its own Hadamard on `q`.
pub open spec fn split(m: Seq<KetModel>, q: int) -> Seq<KetModel>
    decreases m.len(),
{
    if m.len() == 0 {
        seq![]
    } else {
        split(m.drop_last(), q).push(h_same(m.last(), q)).push(h_flipped(m.last(), q))
    }
}

/// The kets after a Hadamard on `q`: when the amplitudes on bit value 0 and 1
/// sum to the same value, only the kets with bit 0 remain; when they sum to
/// opposite values, only those with bit 1; otherwise every ket splits in two.
pub open spec fn h_model(m: Seq<KetModel>, q: int) -> Seq<KetModel> {
    let alpha = component(m, q, false);
    let beta = component(m, q, true);
    if alpha == beta {
        select(m, q, false)
    } else if alpha == cneg(beta) {
        select(m, q, true)
    } else {
        split(m, q)
    }
}

/// Mass is never negative, and a prefix has no more of it than the whole.
pub proof fn lemma_mass_prefix(m: Seq<KetModel>, i: int)
    requires
        0 <= i <= m.len(),
    ensures
        0 <= mass(m.take(i)) <= mass(m),
    decreases m.len(),
{
    if i == m.len() {
        assert(m.take(i) =~= m);
        lemma_mass_nonneg(m);
    } else {
        assert(m.take(i) =~= m.drop_last().take(i));
        lemma_mass_prefix(m.drop_last(), i);
    }
}

/// Mass is never negative.
pub proof fn lemma_mass_nonneg(m: Seq<KetModel>)
    ensures
        0 <= mass(m),
    decreases m.len(),
{
    if m.len() > 0 {
        lemma_mass_nonneg(m.drop_last());
    }
}

/// Both components together are bounded by the mass.
pub proof fn lemma_components_bounded(m: Seq<KetModel>, q: int)
    ensures
        cabs(component(m, q, false)) + cabs(component(m, q, true)) <= mass(m),
    decreases m.len(),
{
    if m.len() > 0 {
        lemma_components_bounded(m.drop_last(), q);
    }
}

/// Selecting kets keeps their widths.
pub proof fn lemma_select_width(m: Seq<KetModel>, q: int, b: bool, n: nat)
    requires
        all_width(m, n),
    ensures
        all_width(select(m, q, b), n),
        mass(select(m, q, b)) <= mass(m),
    decreases m.len(),
{
    if m.len() > 0 {
        assert(all_width(m.drop_last(), n)) by {
            assert forall|i: int| 0 <= i < m.drop_last().len() implies (#[trigger] m.drop_last()[i]).bits.len() == n by {
                assert(m.drop_last()[i] == m[i]);
            }
        }
        lemma_select_width(m.drop_last(), q, b, n);
        assert(m.last() == m[m.len() - 1]);
        let rest = select(m.drop_last(), q, b);
        assert(rest.push(m.last()).drop_last() =~= rest);
    }
}

/// Splitting kets keeps their widths.
pub proof fn lemma_split_width(m: Seq<KetModel>, q: int, n: nat)
    requires
        all_width(m, n),
        0 <= q < n,
    ensures
        all_width(split(m, q), n),
        split(m, q).len() == 2 * m.len(),
    decreases m.len(),
{
    if m.len() > 0 {
        assert(all_width(m.drop_last(), n)) by {
            assert forall|i: int| 0 <= i < m.drop_last().len() implies (#[trigger] m.drop_last()[i]).bits.len() == n by {
                assert(m.drop_last()[i] == m[i]);
            }
        }
        lemma_split_width(m.drop_last(), q, n);
        assert(m.last() == m[m.len() - 1]);
    }
}

/// Kets whose amplitudes have the same `cabs`, one for one, have the same mass.
pub proof fn lemma_mass_same(a: Seq<KetModel>, b: Seq<KetModel>)
    requires
        a.len() == b.len(),
        forall|i: int| 0 <= i < a.len() ==> cabs((#[trigger] a[i]).coeff) == cabs(b[i].coeff),
    ensures
        mass(a) == mass(b),
    decreases a.len(),
{
    if a.len() > 0 {
        let a1 = a.drop_last();
        let b1 = b.drop_last();
        assert forall|i: int| 0 <= i < a1.len() implies cabs((#[trigger] a1[i]).coeff) == cabs(b1[i].coeff) by {
            assert(a1[i] == a[i] && b1[i] == b[i]);
        }
        lemma_mass_same(a1, b1);
        assert(cabs(a[a.len() - 1].coeff) == cabs(b[b.len() - 1].coeff));
    }
}

/// Splitting every ket doubles the mass.
pub proof fn lemma_split_mass(m: Seq<KetModel>, q: int)
    ensures
        mass(split(m, q)) == 2 * mass(m),
    decreases m.len(),
{
    if m.len() > 0 {
        lemma_split_mass(m.drop_last(), q);
        let rest = split(m.drop_last(), q);
        let k = m.last();
        let one = rest.push(h_same(k, q));
        let two = one.push(h_flipped(k, q));
        assert(two.drop_last() =~= one);
        assert(one.drop_last() =~= rest);
        assert(cabs(h_same(k, q).coeff) == cabs(k.coeff));
        assert(mass(one) == mass(rest) + cabs(k.coeff));
        assert(mass(two) == mass(one) + cabs(k.coeff));
        assert(split(m, q) == two);
    }
}

/// A prefix one longer is the shorter prefix and the next ket.
proof fn lemma_prefix_step(m: Seq<KetModel>, i: int)
    requires
        0 <= i < m.len(),
    ensures
        m.take(i + 1).drop_last() == m.take(i),
        m.take(i + 1).last() == m[i],
{
    assert(m.take(i + 1).drop_last() =~= m.take(i));
}

/// Index of the first ket with the given bits, or the length if there is none.
pub open spec fn find_bits(g: Seq<KetModel>, bits: Seq<bool>) -> int
    decreases g.len(),
{
    if g.len() == 0 {
        0
    } else if g[0].bits == bits {
        0
    } else {
        1 + find_bits(g.drop_first(), bits)
    }
}

/// Adds a ket to a list of distinct bit patterns: its amplitude joins the ket
/// with the same bits, or it is appended.
pub open spec fn merge(g: Seq<KetModel>, k: KetModel) -> Seq<KetModel> {
    let j = find_bits(g, k.bits);
    if j < g.len() {
        g.update(j, KetModel { coeff: cadd(g[j].coeff, k.coeff), ..g[j] })
    } else {
        g.push(k)
    }
}

/// The kets grouped by bit pattern, in order of first appearance, with the
/// amplitudes of each group summed; the first ket of a group gives its records.
pub open spec fn group(m: Seq<KetModel>) -> Seq<KetModel>
    decreases m.len(),
{
    if m.len() == 0 {
        seq![]
    } else {
        merge(group(m.drop_last()), m.last())
    }
}

/// Sum of the squared moduli of the amplitudes.
pub open spec fn sumsq(g: Seq<KetModel>) -> int
    decreases g.len(),
{
    if g.len() == 0 {
        0
    } else {
        sumsq(g.drop_last()) + norm_sq(g.last().coeff)
    }
}

/// The denominator after normalising kets `g`: their total weight, unless that is 0.
pub open spec fn rescale(g: Seq<KetModel>, scale: int) -> int {
    if sumsq(g) > 0 { sumsq(g) } else { scale }
}

/// True when no two kets share a bit pattern.
pub open spec fn distinct_bits(g: Seq<KetModel>) -> bool {
    forall|i: int, j: int| 0 <= i < j < g.len() ==> (#[trigger] g[i]).bits != (#[trigger] g[j]).bits
}

/// `find_bits` is the first index holding the bits, or the length.
pub proof fn lemma_find_bits(g: Seq<KetModel>, bits: Seq<bool>)
    ensures
        0 <= find_bits(g, bits) <= g.len(),
        forall|k: int| 0 <= k < find_bits(g, bits) ==> (#[trigger] g[k]).bits != bits,
        find_bits(g, bits) < g.len() ==> g[find_bits(g, bits)].bits == bits,
    decreases g.len(),
{
    if g.len() > 0 && g[0].bits != bits {
        let rest = g.drop_first();
        lemma_find_bits(rest, bits);
        assert forall|k: int| 0 <= k < find_bits(g, bits) implies (#[trigger] g[k]).bits != bits by {
            if k > 0 {
                assert(g[k] == rest[k - 1]);
            }
        }
    }
}

/// The squared modulus is at most the square of `cabs`.
pub proof fn lemma_norm_sq_le(a: (int, int))
    ensures
        0 <= norm_sq(a) <= cabs(a) * cabs(a),
{
    let x = abs(a.0);
    let y = abs(a.1);
    assert(a.0 * a.0 == x * x) by (nonlinear_arith)
        requires x == abs(a.0);
    assert(a.1 * a.1 == y * y) by (nonlinear_arith)
        requires y == abs(a.1);
    assert(0 <= x * x + y * y <= (x + y) * (x + y)) by (nonlinear_arith)
        requires x >= 0, y >= 0;
}

/// The total weight is at most the square of the mass.
pub proof fn lemma_sumsq_bound(g: Seq<KetModel>)
    ensures
        0 <= sumsq(g) <= mass(g) * mass(g),
    decreases g.len(),
{
    if g.len() > 0 {
        lemma_sumsq_bound(g.drop_last());
        lemma_mass_nonneg(g.drop_last());
        lemma_norm_sq_le(g.last().coeff);
        let a = mass(g.drop_last());
        let b = cabs(g.last().coeff);
        let s = sumsq(g.drop_last());
        let n = norm_sq(g.last().coeff);
        assert(s + n <= (a + b) * (a + b)) by (nonlinear_arith)
            requires 0 <= s <= a * a, 0 <= n <= b * b, a >= 0, b >= 0;
    }
}

/// A prefix weighs no more than the whole.
pub proof fn lemma_sumsq_prefix(g: Seq<KetModel>, i: int)
    requires
        0 <= i <= g.len(),
    ensures
        0 <= sumsq(g.take(i)) <= sumsq(g),
    decreases g.len(),
{
    if i == g.len() {
        assert(g.take(i) =~= g);
        lemma_sumsq_bound(g);
    } else {
        assert(g.take(i) =~= g.drop_last().take(i));
        lemma_sumsq_prefix(g.drop_last(), i);
        lemma_norm_sq_le(g.last().coeff);
    }
}

/// One ket's `cabs` is at most the mass.
pub proof fn lemma_mass_elem(g: Seq<KetModel>, j: int)
    requires
        0 <= j < g.len(),
    ensures
        cabs(g[j].coeff) <= mass(g),
    decreases g.len(),
{
    lemma_mass_nonneg(g.drop_last());
    if j < g.len() - 1 {
        lemma_mass_elem(g.drop_last(), j);
    }
}

/// Replacing one ket changes the mass by the difference of their `cabs`.
pub proof fn lemma_mass_update(g: Seq<KetModel>, j: int, x: KetModel)
    requires
        0 <= j < g.len(),
    ensures
        mass(g.update(j, x)) == mass(g) - cabs(g[j].coeff) + cabs(x.coeff),
    decreases g.len(),
{
    let u = g.update(j, x);
    if j == g.len() - 1 {
        assert(u.drop_last() =~= g.drop_last());
    } else {
        assert(u.drop_last() =~= g.drop_last().update(j, x));
        lemma_mass_update(g.drop_last(), j, x);
    }
}

/// Merging a ket adds at most its `cabs` to the mass, and keeps widths.
pub proof fn lemma_merge(g: Seq<KetModel>, k: KetModel, n: nat)
    requires
        all_width(g, n),
        k.bits.len() == n,
    ensures
        mass(merge(g, k)) <= mass(g) + cabs(k.coeff),
        all_width(merge(g, k), n),
{
    lemma_find_bits(g, k.bits);
    let j = find_bits(g, k.bits);
    if j < g.len() {
        lemma_mass_update(g, j, KetModel { coeff: cadd(g[j].coeff, k.coeff), ..g[j] });
    } else {
        assert(g.push(k).drop_last() =~= g);
    }
}

/// Grouping does not add mass, and keeps widths.
pub proof fn lemma_group_mass(m: Seq<KetModel>, n: nat)
    requires
        all_width(m, n),
    ensures
        mass(group(m)) <= mass(m),
        all_width(group(m), n),
    decreases m.len(),
{
    if m.len() > 0 {
        assert(all_width(m.drop_last(), n)) by {
            assert forall|i: int| 0 <= i < m.drop_last().len() implies (#[trigger] m.drop_last()[i]).bits.len() == n by {
                assert(m.drop_last()[i] == m[i]);
            }
        }
        assert(m.last() == m[m.len() - 1]);
        lemma_group_mass(m.drop_last(), n);
        lemma_merge(group(m.drop_last()), m.last(), n);
    }
}

/// The kets that survive once qubit `qubit` of register `system` was measured
/// to `outcome`: a ket with a record about that qubit is dropped when some such
/// record asks for the other outcome, and otherwise loses its first such record.
pub open spec fn prune(m: Seq<KetModel>, system: char, qubit: usize, outcome: bool) -> Seq<KetModel>
    decreases m.len(),
{
    if m.len() == 0 {
        seq![]
    } else {
        let rest = prune(m.drop_last(), system, qubit, outcome);
        let k = m.last();
        if entangled_with(k.ents, system, qubit) {
            if collapses(k.ents, outcome, system, qubit) {
                rest
            } else {
                rest.push(KetModel { ents: absorb(k.ents, system, qubit), ..k })
            }
        } else {
            rest.push(k)
        }
    }
}

/// After pruning, every record left about the measured qubit agrees with the outcome.
pub proof fn lemma_prune_consistent(m: Seq<KetModel>, system: char, qubit: usize, outcome: bool)
    ensures
        forall|i: int, j: int|
            0 <= i < prune(m, system, qubit, outcome).len()
            && 0 <= j < prune(m, system, qubit, outcome)[i].ents.len()
            && on(#[trigger] prune(m, system, qubit, outcome)[i].ents[j], system, qubit)
            ==> prune(m, system, qubit, outcome)[i].ents[j].0 == outcome,
    decreases m.len(),
{
    if m.len() > 0 {
        lemma_prune_consistent(m.drop_last(), system, qubit, outcome);
        let rest = prune(m.drop_last(), system, qubit, outcome);
        let k = m.last();
        let p = prune(m, system, qubit, outcome);
        if entangled_with(k.ents, system, qubit) && !collapses(k.ents, outcome, system, qubit) {
            let f = first_on(k.ents, system, qubit);
            let a = absorb(k.ents, system, qubit);
            lemma_first_on_range(k.ents, system, qubit);
            assert forall|j: int| 0 <= j < a.len() && on(#[trigger] a[j], system, qubit) implies a[j].0 == outcome by {
                if f < k.ents.len() {
                    if j < f {
                        assert(a[j] == k.ents[j]);
                        assert(on(k.ents[j], system, qubit));
                    } else {
                        assert(a[j] == k.ents[j + 1]);
                        assert(on(k.ents[j + 1], system, qubit));
                    }
                } else {
                    assert(a[j] == k.ents[j]);
                    assert(on(k.ents[j], system, qubit));
                }
            }
            assert forall|i: int, j: int|
                0 <= i < p.len() && 0 <= j < p[i].ents.len() && on(#[trigger] p[i].ents[j], system, qubit)
                implies p[i].ents[j].0 == outcome by {
                if i < rest.len() {
                    assert(p[i] == rest[i]);
                }
            }
        } else if !entangled_with(k.ents, system, qubit) {
            assert forall|i: int, j: int|
                0 <= i < p.len() && 0 <= j < p[i].ents.len() && on(#[trigger] p[i].ents[j], system, qubit)
                implies p[i].ents[j].0 == outcome by {
                if i < rest.len() {
                    assert(p[i] == rest[i]);
                } else {
                    assert(p[i] == k);
                    assert(on(k.ents[j], system, qubit));
                }
            }
        }
    }
}

/// Pruning keeps widths and adds no mass.
pub proof fn lemma_prune_width(m: Seq<KetModel>, system: char, qubit: usize, outcome: bool, n: nat)
    requires
        all_width(m, n),
    ensures
        all_width(prune(m, system, qubit, outcome), n),
        mass(prune(m, system, qubit, outcome)) <= mass(m),
    decreases m.len(),
{
    if m.len() > 0 {
        assert(all_width(m.drop_last(), n)) by {
            assert forall|i: int| 0 <= i < m.drop_last().len() implies (#[trigger] m.drop_last()[i]).bits.len() == n by {
                assert(m.drop_last()[i] == m[i]);
            }
        }
        assert(m.last() == m[m.len() - 1]);
        lemma_prune_width(m.drop_last(), system, qubit, outcome, n);
        let rest = prune(m.drop_last(), system, qubit, outcome);
        let k = m.last();
        assert(rest.push(KetModel { ents: absorb(k.ents, system, qubit), ..k }).drop_last() =~= rest);
        assert(rest.push(k).drop_last() =~= rest);
    }
}

/// No two groups share a bit pattern.
pub proof fn lemma_group_distinct(m: Seq<KetModel>)
    ensures
        distinct_bits(group(m)),
    decreases m.len(),
{
    if m.len() > 0 {
        lemma_group_distinct(m.drop_last());
        let g = group(m.drop_last());
        let k = m.last();
        lemma_find_bits(g, k.bits);
        let j = find_bits(g, k.bits);
        let r = merge(g, k);
        assert forall|a: int, b: int| 0 <= a < b < r.len() implies (#[trigger] r[a]).bits != (#[trigger] r[b]).bits by {
            if j < g.len() {
                assert(g[a].bits == r[a].bits);
                assert(g[b].bits == r[b].bits);
            } else if b == g.len() {
                assert(r[a] == g[a]);
            } else {
                assert(r[a] == g[a]);
                assert(r[b] == g[b]);
            }
        }
    }
}

/// Grouping kets whose bit patterns are already distinct changes nothing.
pub proof fn lemma_group_of_distinct(g: Seq<KetModel>)
    requires
        distinct_bits(g),
    ensures
        group(g) == g,
    decreases g.len(),
{
    if g.len() > 0 {
        let rest = g.drop_last();
        assert(distinct_bits(rest)) by {
            assert forall|a: int, b: int| 0 <= a < b < rest.len() implies (#[trigger] rest[a]).bits != (#[trigger] rest[b]).bits by {
                assert(rest[a] == g[a] && rest[b] == g[b]);
            }
        }
        lemma_group_of_distinct(rest);
        lemma_find_bits(rest, g.last().bits);
        let f = find_bits(rest, g.last().bits);
        if f < rest.len() {
            assert(rest[f] == g[f]);
            assert(g[f].bits != g[g.len() - 1].bits);
        }
        assert(rest.push(g.last()) =~= g);
    }
}

/// Normalising twice gives the same kets and denominator as normalising once.
pub proof fn lemma_normalize_idempotent(m: Seq<KetModel>, scale: int)
    ensures
        group(group(m)) == group(m),
        rescale(group(group(m)), rescale(group(m), scale)) == rescale(group(m), scale),
{
    lemma_group_distinct(m);
    lemma_group_of_distinct(group(m));
}

/// Pauli X twice on the same qubit gives back every ket.
pub proof fn lemma_x_involution(m: Seq<KetModel>, q: int, n: nat)
    requires
        all_width(m, n),
        0 <= q < n,
    ensures
        Seq::new(m.len(), |i: int| x_ket(Seq::new(m.len(), |j: int| x_ket(m[j], q))[i], q)) == m,
{
    let once = Seq::new(m.len(), |j: int| x_ket(m[j], q));
    let twice = Seq::new(m.len(), |i: int| x_ket(once[i], q));
    assert forall|i: int| 0 <= i < m.len() implies #[trigger] twice[i] == m[i] by {
        assert(m[i].bits.len() == n);
        assert(flip(flip(m[i].bits, q), q) =~= m[i].bits);
    }
    assert(twice =~= m);
}

/// Hadamard twice on a single ket with a non-zero amplitude gives back one ket
/// with the same bits and the same amplitude, negated when bit `q` is set.
pub proof fn lemma_h_twice(k: KetModel, q: int)
    requires
        0 <= q < k.bits.len(),
        k.coeff != (0int, 0int),
    ensures
        h_model(h_model(seq![k], q), q).len() == 1,
        h_model(h_model(seq![k], q), q)[0].bits == k.bits,
        h_model(h_model(seq![k], q), q)[0].coeff == if k.bits[q] { cneg(k.coeff) } else { k.coeff },
{
    let m = seq![k];
    assert(m.drop_last() =~= Seq::<KetModel>::empty());
    assert(m.last() == k);
    let e = Seq::<KetModel>::empty();
    assert(component(e, q, false) == (0int, 0int));
    assert(component(e, q, true) == (0int, 0int));
    if k.bits[q] {
        assert(component(m, q, false) == component(e, q, false));
        assert(component(m, q, true) == cadd(component(e, q, true), k.coeff));
    } else {
        assert(component(m, q, true) == component(e, q, true));
        assert(component(m, q, false) == cadd(component(e, q, false), k.coeff));
    }
    let once = h_model(m, q);
    assert(once == split(m, q));
    assert(split(m.drop_last(), q) =~= Seq::<KetModel>::empty());
    let a = h_same(k, q);
    let b = h_flipped(k, q);
    assert(once =~= seq![a, b]);
    assert(flip(k.bits, q)[q] == !k.bits[q]);
    assert(once.drop_last() =~= seq![a]);
    assert(once.drop_last().drop_last() =~= Seq::<KetModel>::empty());
    assert(once.last() == b);
    assert(once.drop_last().last() == a);
    let z = component(once, q, false);
    let o = component(once, q, true);
    let zeros = select(once, q, false);
    let ones = select(once, q, true);
    assert(component(once.drop_last(), q, false) == component(seq![a], q, false));
    assert(component(once.drop_last(), q, true) == component(seq![a], q, true));
    assert(select(once.drop_last(), q, false) == select(seq![a], q, false));
    assert(select(once.drop_last(), q, true) == select(seq![a], q, true));
    let sa = seq![a];
    assert(sa.drop_last() =~= e);
    assert(sa.last() == a);
    assert(select(e, q, true) =~= e);
    assert(select(e, q, false) =~= e);
    if a.bits[q] {
        assert(component(sa, q, false) == component(e, q, false));
        assert(component(sa, q, true) == cadd(component(e, q, true), a.coeff));
        assert(select(sa, q, false) == select(e, q, false));
        assert(select(sa, q, true) == select(e, q, true).push(a));
    } else {
        assert(component(sa, q, true) == component(e, q, true));
        assert(component(sa, q, false) == cadd(component(e, q, false), a.coeff));
        assert(select(sa, q, true) == select(e, q, true));
        assert(select(sa, q, false) == select(e, q, false).push(a));
    }
    if k.bits[q] {
        assert(z == k.coeff);
        assert(o == cneg(k.coeff));
        assert(ones =~= seq![a]);
    } else {
        assert(z == k.coeff);
        assert(o == k.coeff);
        assert(zeros =~= seq![a]);
    }
}

/// Relies on rand's `thread_rng` and `Rng::gen_range`, which panics on an empty
/// range: a number drawn below `bound`.
#[verifier::external_body]
pub(crate) fn draw_below(bound: u128) -> (r: u128)
    requires
        bound > 0,
    ensures
        r < bound,
{
    rand::thread_rng().gen_range(0..bound)
}

/// The index of the first ket in `v` with the same bits as `k`, or the length.
fn find_same_bits(v: &Vec<Ket>, k: &Ket) -> (r: usize)
    ensures
        r == find_bits(models(v@), k@.bits),
{
    proof { lemma_find_bits(models(v@), k@.bits); }
    let mut j: usize = 0;
    while j < v.len()
        invariant
            j <= v.len(),
            forall|i: int| 0 <= i < j ==> (#[trigger] models(v@)[i]).bits != k@.bits,
        decreases v.len() - j,
    {
        if v[j].same_bits_as(k) {
            proof {
                lemma_find_bits(models(v@), k@.bits);
                let f = find_bits(models(v@), k@.bits);
                assert(models(v@)[j as int].bits == k@.bits);
                if f < j {
                    assert(models(v@)[f].bits != k@.bits);
                }
            }
            return j;
        }
        j += 1;
    }
    j
}

/// The state of one register.
#[derive(Debug)]
pub struct State {
    pub kets: Vec<Ket>,
    pub num_qubits: usize,
    pub symbol: char,
    pub backend: Backend,
    pub lazy: bool,
    pub verbose: bool,
    /// Squared denominator shared by all amplitudes: the amplitude of a ket is
    /// its coefficient divided by the square root of `scale`.
    pub scale: u128,
}

/// Initializes a register state with kets, a width and a name.
pub fn create_state(
    kets: Vec<Ket>,
    num_qubits: usize,
    symbol: char,
    backend: Option<Backend>,
    lazy: Option<bool>,
    verbose: Option<bool>,
) -> (r: State)
    ensures
        r.kets@ == kets@,
        r.num_qubits == num_qubits,
        r.symbol == symbol,
        r.backend == (match backend { Some(b) => b, None => Backend::RS }),
        r.lazy == (match lazy { Some(l) => l, None => false }),
        r.verbose == (match verbose { Some(v) => v, None => false }),
        r.scale == 1,
{
    State {
        kets,
        num_qubits,
        symbol,
        backend: match backend {
            Some(b) => b,
            None => Backend::RS,
        },
        lazy: match lazy {
            Some(l) => l,
            None => false,
        },
        verbose: match verbose {
            Some(v) => v,
            None => false,
        },
        scale: 1,
    }
}

impl State {
    /// The models of the kets, in order.
    pub open spec fn model(&self) -> Seq<KetModel> {
        models(self.kets@)
    }

    /// Every ket is as wide as the register, and the denominator is positive.
    pub open spec fn wf(&self) -> bool {
        &&& self.scale > 0
        &&& all_width(self.model(), self.num_qubits as nat)
    }

    /// The amplitudes are small enough for every sum this register forms.
    pub open spec fn bounded(&self) -> bool {
        mass(self.model()) <= MAX_MAGNITUDE
    }

    /// The same register with other kets.
    pub open spec fn with_model(&self, other: &State, m: Seq<KetModel>) -> bool {
        &&& other.model() == m
        &&& other.num_qubits == self.num_qubits
        &&& other.symbol == self.symbol
        &&& other.backend == self.backend
        &&& other.lazy == self.lazy
        &&& other.verbose == self.verbose
    }

    /// Adds a ket at the end.
    pub fn add_ket(&mut self, ket: Ket)
        ensures
            final(self).kets@ == old(self).kets@.push(ket),
            final(self).num_qubits == old(self).num_qubits,
            final(self).symbol == old(self).symbol,
            final(self).backend == old(self).backend,
            final(self).lazy == old(self).lazy,
            final(self).verbose == old(self).verbose,
            final(self).scale == old(self).scale,
    {
        self.kets.push(ket);
    }

    /// Removes the first ket with the same bits as `ket`; there must be one.
    pub fn remove_ket(&mut self, ket: Ket)
        requires
            exists|i: int| 0 <= i < old(self).kets.len() && (#[trigger] old(self).model()[i]).bits == ket@.bits,
        ensures
            exists|i: int|
                0 <= i < old(self).kets.len() && old(self).model()[i].bits == ket@.bits
                && (forall|j: int| 0 <= j < i ==> (#[trigger] old(self).model()[j]).bits != ket@.bits)
                && final(self).kets@ == old(self).kets@.remove(i),
            final(self).num_qubits == old(self).num_qubits,
            final(self).symbol == old(self).symbol,
            final(self).backend == old(self).backend,
            final(self).lazy == old(self).lazy,
            final(self).verbose == old(self).verbose,
            final(self).scale == old(self).scale,
    {
        let mut i: usize = 0;
        while i < self.kets.len()
            invariant
                i <= self.kets.len(),
                self.kets@ == old(self).kets@,
                self.num_qubits == old(self).num_qubits,
                self.symbol == old(self).symbol,
                self.backend == old(self).backend,
                self.lazy == old(self).lazy,
                self.verbose == old(self).verbose,
                self.scale == old(self).scale,
                forall|j: int| 0 <= j < i ==> (#[trigger] old(self).model()[j]).bits != ket@.bits,
            decreases self.kets.len() - i,
        {
            if self.kets[i].same_bits_as(&ket) {
                assert(old(self).model()[i as int].bits == ket@.bits);
                self.kets.remove(i);
                return;
            }
            i += 1;
        }
    }

    /// The sums of the amplitudes of the kets whose bit `qubit` is 0, and of
    /// those whose bit `qubit` is 1.
    pub fn get_components(&self, qubit: usize) -> (r: [ComplexCoefficient; 2])
        requires
            self.wf(),
            self.bounded(),
            qubit < self.num_qubits,
        ensures
            r[0]@ == component(self.model(), qubit as int, false),
            r[1]@ == component(self.model(), qubit as int, true),
    {
        let (alpha, beta, zeros, ones) = self.partition(qubit);
        [alpha, beta]
    }

    /// One pass over the kets: the two components, and the kets with bit
    /// `qubit` 0 and 1.
    fn partition(&self, qubit: usize) -> (r: (ComplexCoefficient, ComplexCoefficient, Vec<Ket>, Vec<Ket>))
        requires
            self.wf(),
            self.bounded(),
            qubit < self.num_qubits,
        ensures
            r.0@ == component(self.model(), qubit as int, false),
            r.1@ == component(self.model(), qubit as int, true),
            models(r.2@) == select(self.model(), qubit as int, false),
            models(r.3@) == select(self.model(), qubit as int, true),
    {
        let ghost m = self.model();
        let ghost q = qubit as int;
        let mut alpha = complex_from_parts(0, 0);
        let mut beta = complex_from_parts(0, 0);
        let mut zeros: Vec<Ket> = Vec::new();
        let mut ones: Vec<Ket> = Vec::new();
        let mut i: usize = 0;
        proof {
            assert(m.take(0) =~= Seq::<KetModel>::empty());
            assert(models(zeros@) =~= seq![]);
            assert(models(ones@) =~= seq![]);
        }
        while i < self.kets.len()
            invariant
                i <= self.kets.len(),
                m == self.model(),
                self.wf(),
                self.bounded(),
                q == qubit,
                qubit < self.num_qubits,
                alpha@ == component(m.take(i as int), q, false),
                beta@ == component(m.take(i as int), q, true),
                models(zeros@) == select(m.take(i as int), q, false),
                models(ones@) == select(m.take(i as int), q, true),
            decreases self.kets.len() - i,
        {
            let ket = &self.kets[i];
            proof {
                lemma_prefix_step(m, i as int);
                lemma_components_bounded(m.take(i + 1), q);
                lemma_mass_prefix(m, i + 1);
                assert(m[i as int] == ket@);
                assert(m[i as int].bits.len() == self.num_qubits);
            }
            if ket.bit(qubit) {
                beta = beta.add_to_complex_coefficient(ket.get_coefficient());
                ones.push(ket.duplicate());
                assert(models(ones@) =~= select(m.take(i + 1), q, true));
            } else {
                alpha = alpha.add_to_complex_coefficient(ket.get_coefficient());
                zeros.push(ket.duplicate());
                assert(models(zeros@) =~= select(m.take(i + 1), q, false));
            }
            i += 1;
        }
        proof {
            assert(m.take(i as int) =~= m);
        }
        (alpha, beta, zeros, ones)
    }

    /// True when the register is well formed: a positive denominator and every
    /// ket as wide as the register.
    pub fn is_well_formed(&self) -> (r: bool)
        ensures
            r == self.wf(),
    {
        if self.scale == 0 {
            return false;
        }
        let mut i: usize = 0;
        while i < self.kets.len()
            invariant
                i <= self.kets.len(),
                forall|j: int| 0 <= j < i ==> (#[trigger] self.model()[j]).bits.len() == self.num_qubits,
            decreases self.kets.len() - i,
        {
            assert(self.model()[i as int] == self.kets@[i as int]@);
            if self.kets[i].width() != self.num_qubits {
                return false;
            }
            i += 1;
        }
        true
    }

    /// A copy of the register.
    pub fn clone_state(&self) -> (r: State)
        ensures
            r.model() == self.model(),
            r.num_qubits == self.num_qubits,
            r.symbol == self.symbol,
            r.backend == self.backend,
            r.lazy == self.lazy,
            r.verbose == self.verbose,
            r.scale == self.scale,
    {
        let mut kets: Vec<Ket> = Vec::new();
        let mut i: usize = 0;
        while i < self.kets.len()
            invariant
                i <= self.kets.len(),
                models(kets@) == self.model().take(i as int),
            decreases self.kets.len() - i,
        {
            let ghost prev = kets@;
            let d = self.kets[i].duplicate();
            kets.push(d);
            assert(kets@ == prev.push(d));
            assert(models(kets@) =~= models(prev).push(d@));
            assert(self.model()[i as int] == self.kets@[i as int]@);
            assert(self.model().take(i + 1) =~= self.model().take(i as int).push(self.model()[i as int]));
            i += 1;
        }
        assert(self.model().take(i as int) =~= self.model());
        State {
            kets,
            num_qubits: self.num_qubits,
            symbol: self.symbol,
            backend: self.backend,
            lazy: self.lazy,
            verbose: self.verbose,
            scale: self.scale,
        }
    }

    /// The sum of the absolute values of all amplitude parts, when it is at most
    /// `MAX_MAGNITUDE`.
    pub fn total_magnitude(&self) -> (r: Option<u64>)
        ensures
            r.is_some() == self.bounded(),
            r.is_some() ==> r.unwrap() == mass(self.model()),
    {
        let ghost m = self.model();
        let mut total: u64 = 0;
        let mut i: usize = 0;
        proof { assert(m.take(0) =~= Seq::<KetModel>::empty()); }
        while i < self.kets.len()
            invariant
                i <= self.kets.len(),
                m == self.model(),
                total == mass(m.take(i as int)),
                total <= MAX_MAGNITUDE,
            decreases self.kets.len() - i,
        {
            proof {
                lemma_prefix_step(m, i as int);
                assert(m[i as int] == self.kets@[i as int]@);
            }
            let (re, im) = self.kets[i].get_coefficient().parts();
            let a: u64 = if re < 0 { (-re) as u64 } else { re as u64 };
            let b: u64 = if im < 0 { (-im) as u64 } else { im as u64 };
            if a > MAX_MAGNITUDE as u64 - total || b > MAX_MAGNITUDE as u64 - total - a {
                proof {
                    lemma_mass_prefix(m, i + 1);
                }
                return None;
            }
            total = total + a + b;
            i += 1;
        }
        proof { assert(m.take(i as int) =~= m); }
        Some(total)
    }

    /// Drops the kets that a measurement of qubit `qubit` of register `system`
    /// with outcome `outcome` rules out, and takes the matching record out of
    /// the others.
    pub fn prune(&mut self, system: char, qubit: usize, outcome: bool)
        ensures
            old(self).wf() ==> final(self).wf(),
            final(self).scale == old(self).scale,
            old(self).with_model(final(self), prune(old(self).model(), system, qubit, outcome)),
    {
        let ghost m = self.model();
        let mut kept: Vec<Ket> = Vec::new();
        let mut i: usize = 0;
        proof {
            assert(m.take(0) =~= Seq::<KetModel>::empty());
            assert(models(kept@) =~= seq![]);
        }
        while i < self.kets.len()
            invariant
                i <= self.kets.len(),
                m == self.model(),
                self.kets@ == old(self).kets@,
                models(kept@) == prune(m.take(i as int), system, qubit, outcome),
            decreases self.kets.len() - i,
        {
            proof {
                lemma_prefix_step(m, i as int);
                assert(m[i as int] == self.kets@[i as int]@);
            }
            let mut k = self.kets[i].duplicate();
            if k.is_entangled() && k.is_entangled_with(system, qubit) {
                if !k.should_collapse(outcome, system, qubit) {
                    kept.push(k);
                }
            } else {
                kept.push(k);
            }
            assert(models(kept@) =~= prune(m.take(i + 1), system, qubit, outcome));
            i += 1;
        }
        proof {
            assert(m.take(i as int) =~= m);
            if self.wf() {
                lemma_prune_width(m, system, qubit, outcome, self.num_qubits as nat);
            }
        }
        self.kets = kept;
    }

    /// The weights of measuring 0 and 1 on `qubit`: the squared moduli of the
    /// two components.
    pub fn weights(&self, qubit: usize) -> (r: (u128, u128))
        requires
            self.wf(),
            self.bounded(),
            qubit < self.num_qubits,
        ensures
            r.0 == norm_sq(component(self.model(), qubit as int, false)),
            r.1 == norm_sq(component(self.model(), qubit as int, true)),
            r.0 + r.1 <= MAX_MAGNITUDE * MAX_MAGNITUDE,
    {
        let (alpha, beta, zeros, ones) = self.partition(qubit);
        proof {
            let m = self.model();
            let q = qubit as int;
            lemma_components_bounded(m, q);
            lemma_norm_sq_le(alpha@);
            lemma_norm_sq_le(beta@);
            let a = cabs(alpha@);
            let b = cabs(beta@);
            let big = MAX_MAGNITUDE as int;
            assert(norm_sq(alpha@) + norm_sq(beta@) <= big * big) by (nonlinear_arith)
                requires
                    0 <= norm_sq(alpha@) <= a * a,
                    0 <= norm_sq(beta@) <= b * b,
                    a >= 0, b >= 0, a + b <= big;
        }
        (alpha.to_probability(), beta.to_probability())
    }

    /// Measures `qubit` with a drawn number: the outcome is 1 when `draw` is at
    /// least the weight of 0, and only the kets that agree with it remain.
    /// Drawn uniformly below the sum of both weights, `draw` gives each outcome
    /// with its probability.
    pub fn measure_with(&mut self, qubit: usize, draw: u128) -> (r: bool)
        requires
            old(self).wf(),
            old(self).bounded(),
            qubit < old(self).num_qubits,
        ensures
            r == (draw >= norm_sq(component(old(self).model(), qubit as int, false))),
            final(self).wf(),
            final(self).bounded(),
            final(self).scale == old(self).scale,
            old(self).with_model(final(self), select(old(self).model(), qubit as int, r)),
    {
        let ghost m = self.model();
        let (alpha, beta, zeros, ones) = self.partition(qubit);
        let outcome = draw >= alpha.to_probability();
        if outcome {
            self.kets = ones;
        } else {
            self.kets = zeros;
        }
        proof { lemma_select_width(m, qubit as int, outcome, self.num_qubits as nat); }
        outcome
    }

    /// Measures `qubit`: draws the outcome with the Born rule and keeps only the
    /// kets that agree with it. The state is not renormalised.
    pub fn m(&mut self, qubit: usize) -> (r: bool)
        requires
            old(self).wf(),
            old(self).bounded(),
            qubit < old(self).num_qubits,
        ensures
            norm_sq(component(old(self).model(), qubit as int, false)) == 0 ==> r,
            norm_sq(component(old(self).model(), qubit as int, true)) == 0
                && norm_sq(component(old(self).model(), qubit as int, false)) > 0 ==> !r,
            final(self).wf(),
            final(self).bounded(),
            final(self).scale == old(self).scale,
            old(self).with_model(final(self), select(old(self).model(), qubit as int, r)),
    {
        let (p0, p1) = self.weights(qubit);
        let total = p0 + p1;
        let draw = if total > 0 {
            draw_below(total)
        } else {
            0
        };
        self.measure_with(qubit, draw)
    }

    /// Groups the kets by bit pattern, summing the amplitudes of each group, and
    /// sets the denominator so that the weights add up to one.
    pub fn normalize(&mut self)
        requires
            old(self).wf(),
            old(self).bounded(),
        ensures
            final(self).wf(),
            final(self).bounded(),
            final(self).scale == rescale(group(old(self).model()), old(self).scale as int),
            old(self).with_model(final(self), group(old(self).model())),
    {
        let ghost m = self.model();
        let ghost n = self.num_qubits as nat;
        let mut unique: Vec<Ket> = Vec::new();
        let mut i: usize = 0;
        proof {
            assert(m.take(0) =~= Seq::<KetModel>::empty());
            assert(models(unique@) =~= seq![]);
        }
        while i < self.kets.len()
            invariant
                i <= self.kets.len(),
                m == self.model(),
                n == self.num_qubits,
                old(self).wf(),
                old(self).bounded(),
                self.kets@ == old(self).kets@,
                models(unique@) == group(m.take(i as int)),
            decreases self.kets.len() - i,
        {
            let ket = &self.kets[i];
            let ghost g = models(unique@);
            proof {
                lemma_prefix_step(m, i as int);
                assert(m[i as int] == ket@);
                assert(all_width(m.take(i as int), n)) by {
                    assert forall|k: int| 0 <= k < m.take(i as int).len() implies (#[trigger] m.take(i as int)[k]).bits.len() == n by {
                        assert(m.take(i as int)[k] == m[k]);
                    }
                }
                lemma_group_mass(m.take(i as int), n);
                lemma_mass_prefix(m, i + 1);
                lemma_find_bits(g, ket@.bits);
            }
            let j = find_same_bits(&unique, ket);
            if j < unique.len() {
                proof {
                    lemma_mass_elem(g, j as int);
                    assert(models(unique@)[j as int] == unique@[j as int]@);
                }
                let c = unique[j].get_coefficient().add_to_complex_coefficient(ket.get_coefficient());
                unique[j].set_coefficient(c);
                assert(models(unique@) =~= group(m.take(i + 1)));
            } else {
                unique.push(ket.duplicate());
                assert(models(unique@) =~= group(m.take(i + 1)));
            }
            i += 1;
        }
        proof {
            assert(m.take(i as int) =~= m);
            lemma_group_mass(m, n);
            lemma_sumsq_bound(group(m));
        }
        let ghost g = models(unique@);
        let mut total: u128 = 0;
        let mut k: usize = 0;
        proof { assert(g.take(0) =~= Seq::<KetModel>::empty()); }
        while k < unique.len()
            invariant
                k <= unique.len(),
                g == models(unique@),
                g == group(m),
                mass(g) <= MAX_MAGNITUDE,
                0 <= sumsq(g) <= mass(g) * mass(g),
                total == sumsq(g.take(k as int)),
            decreases unique.len() - k,
        {
            proof {
                lemma_prefix_step(g, k as int);
                lemma_sumsq_prefix(g, k + 1);
                lemma_mass_nonneg(g);
                let big = MAX_MAGNITUDE as int;
                assert(mass(g) * mass(g) <= big * big) by (nonlinear_arith)
                    requires 0 <= mass(g) <= big;
                assert(g[k as int] == unique@[k as int]@);
            }
            total = total + unique[k].get_probability();
            k += 1;
        }
        proof { assert(g.take(k as int) =~= g); }
        if total > 0 {
            self.scale = total;
        }
        self.kets = unique;
    }

    /// Hadamard on `qubit`: keeps the kets with bit 0 when both components are
    /// equal, those with bit 1 when they are opposite, and otherwise replaces
    /// every ket by the two kets of its own Hadamard.
    pub fn h(&mut self, qubit: usize)
        requires
            old(self).wf(),
            old(self).bounded(),
            qubit < old(self).num_qubits,
        ensures
            final(self).wf(),
            final(self).scale == old(self).scale,
            old(self).with_model(final(self), h_model(old(self).model(), qubit as int)),
            ({
                let alpha = component(old(self).model(), qubit as int, false);
                let beta = component(old(self).model(), qubit as int, true);
                alpha == beta || alpha == cneg(beta)
            }) ==> final(self).bounded(),
            mass(final(self).model()) <= 2 * mass(old(self).model()),
    {
        let ghost m = self.model();
        let ghost q = qubit as int;
        let (alpha, beta, zeros, ones) = self.partition(qubit);
        let mut negative_beta = beta;
        negative_beta.negate_magnitude();
        if alpha.equals_complex_coefficient(beta) {
            self.kets = zeros;
            proof {
                lemma_select_width(m, q, false, self.num_qubits as nat);
                lemma_mass_nonneg(m);
            }
        } else if alpha.equals_complex_coefficient(negative_beta) {
            self.kets = ones;
            proof {
                lemma_select_width(m, q, true, self.num_qubits as nat);
                lemma_mass_nonneg(m);
            }
        } else {
            let mut new_kets: Vec<Ket> = Vec::new();
            let mut i: usize = 0;
            proof {
                assert(m.take(0) =~= Seq::<KetModel>::empty());
                assert(models(new_kets@) =~= seq![]);
            }
            while i < self.kets.len()
                invariant
                    i <= self.kets.len(),
                    m == self.model(),
                    old(self).wf(),
                    q == qubit,
                    qubit < self.num_qubits,
                    self.kets@ == old(self).kets@,
                    models(new_kets@) == split(m.take(i as int), q),
                decreases self.kets.len() - i,
            {
                proof {
                    lemma_prefix_step(m, i as int);
                    assert(m[i as int].bits.len() == self.num_qubits);
                }
                let mut k = self.kets[i].duplicate();
                let pair = k.h(qubit);
                new_kets.push(pair[0].duplicate());
                new_kets.push(pair[1].duplicate());
                assert(models(new_kets@) =~= split(m.take(i + 1), q));
                i += 1;
            }
            proof {
                assert(m.take(i as int) =~= m);
                lemma_split_width(m, q, self.num_qubits as nat);
                lemma_split_mass(m, q);
            }
            self.kets = new_kets;
        }
    }

    /// Pauli X on `qubit`, applied to every ket.
    pub fn x(&mut self, qubit: usize)
        requires
            old(self).wf(),
            qubit < old(self).num_qubits,
        ensures
            final(self).wf(),
            final(self).scale == old(self).scale,
            old(self).with_model(final(self), Seq::new(old(self).kets.len() as nat, |i: int| x_ket(old(self).model()[i], qubit as int))),
            old(self).bounded() ==> final(self).bounded(),
    {
        let mut i: usize = 0;
        while i < self.kets.len()
            invariant
                i <= self.kets.len(),
                self.kets.len() == old(self).kets.len(),
                self.num_qubits == old(self).num_qubits,
                self.symbol == old(self).symbol,
                self.backend == old(self).backend,
                self.lazy == old(self).lazy,
                self.verbose == old(self).verbose,
                self.scale == old(self).scale,
                qubit < self.num_qubits,
                old(self).wf(),
                forall|j: int| 0 <= j < i ==> #[trigger] self.kets@[j]@ == x_ket(old(self).kets@[j]@, qubit as int),
                forall|j: int| i <= j < self.kets.len() ==> #[trigger] self.kets@[j] == old(self).kets@[j],
            decreases self.kets.len() - i,
        {
            assert(old(self).model()[i as int].bits.len() == self.num_qubits);
            self.kets[i].x(qubit);
            i += 1;
        }
        assert(self.model() =~= Seq::new(old(self).kets.len() as nat, |i: int| x_ket(old(self).model()[i], qubit as int)));
        proof {
            lemma_mass_same(self.model(), old(self).model());
        }
        assert(all_width(self.model(), self.num_qubits as nat)) by {
            assert forall|j: int| 0 <= j < self.model().len() implies (#[trigger] self.model()[j]).bits.len() == self.num_qubits by {
                assert(old(self).model()[j].bits.len() == self.num_qubits);
            }
        }
    }

    /// Pauli Y on `qubit`, applied to every ket.
    pub fn y(&mut self, qubit: usize)
        requires
            old(self).wf(),
            qubit < old(self).num_qubits,
        ensures
            final(self).wf(),
            final(self).scale == old(self).scale,
            old(self).with_model(final(self), Seq::new(old(self).kets.len() as nat, |i: int| y_ket(old(self).model()[i], qubit as int))),
            old(self).bounded() ==> final(self).bounded(),
    {
        let mut i: usize = 0;
        while i < self.kets.len()
            invariant
                i <= self.kets.len(),
                self.kets.len() == old(self).kets.len(),
                self.num_qubits == old(self).num_qubits,
                self.symbol == old(self).symbol,
                self.backend == old(self).backend,
                self.lazy == old(self).lazy,
                self.verbose == old(self).verbose,
                self.scale == old(self).scale,
                qubit < self.num_qubits,
                old(self).wf(),
                forall|j: int| 0 <= j < i ==> #[trigger] self.kets@[j]@ == y_ket(old(self).kets@[j]@, qubit as int),
                forall|j: int| i <= j < self.kets.len() ==> #[trigger] self.kets@[j] == old(self).kets@[j],
            decreases self.kets.len() - i,
        {
            assert(old(self).model()[i as int].bits.len() == self.num_qubits);
            self.kets[i].y(qubit);
            i += 1;
        }
        assert(self.model() =~= Seq::new(old(self).kets.len() as nat, |i: int| y_ket(old(self).model()[i], qubit as int)));
        proof {
            lemma_mass_same(self.model(), old(self).model());
        }
        assert(all_width(self.model(), self.num_qubits as nat)) by {
            assert forall|j: int| 0 <= j < self.model().len() implies (#[trigger] self.model()[j]).bits.len() == self.num_qubits by {
                assert(old(self).model()[j].bits.len() == self.num_qubits);
            }
        }
    }

    /// Pauli Z on `qubit`, applied to every ket.
    pub fn z(&mut self, qubit: usize)
        requires
            old(self).wf(),
            qubit < old(self).num_qubits,
        ensures
            final(self).wf(),
            final(self).scale == old(self).scale,
            old(self).with_model(final(self), Seq::new(old(self).kets.len() as nat, |i: int| z_ket(old(self).model()[i], qubit as int))),
            old(self).bounded() ==> final(self).bounded(),
            forall|i: int| 0 <= i < old(self).kets.len() && !old(self).model()[i].bits[qubit as int]
                ==> #[trigger] final(self).model()[i] == old(self).model()[i],
    {
        let mut i: usize = 0;
        while i < self.kets.len()
            invariant
                i <= self.kets.len(),
                self.kets.len() == old(self).kets.len(),
                self.num_qubits == old(self).num_qubits,
                self.symbol == old(self).symbol,
                self.backend == old(self).backend,
                self.lazy == old(self).lazy,
                self.verbose == old(self).verbose,
                self.scale == old(self).scale,
                qubit < self.num_qubits,
                old(self).wf(),
                forall|j: int| 0 <= j < i ==> #[trigger] self.kets@[j]@ == z_ket(old(self).kets@[j]@, qubit as int),
                forall|j: int| i <= j < self.kets.len() ==> #[trigger] self.kets@[j] == old(self).kets@[j],
            decreases self.kets.len() - i,
        {
            assert(old(self).model()[i as int].bits.len() == self.num_qubits);
            self.kets[i].z(qubit);
            i += 1;
        }
        assert(self.model() =~= Seq::new(old(self).kets.len() as nat, |i: int| z_ket(old(self).model()[i], qubit as int)));
        proof {
            lemma_mass_same(self.model(), old(self).model());
        }
        assert(all_width(self.model(), self.num_qubits as nat)) by {
            assert forall|j: int| 0 <= j < self.model().len() implies (#[trigger] self.model()[j]).bits.len() == self.num_qubits by {
                assert(old(self).model()[j].bits.len() == self.num_qubits);
            }
        }
    }

    /// Controlled X from `source` to `target`, applied to every ket.
    pub fn cx(&mut self, source: usize, target: usize)
        requires
            old(self).wf(),
            source < old(self).num_qubits,
            target < old(self).num_qubits,
        ensures
            final(self).wf(),
            final(self).scale == old(self).scale,
            old(self).with_model(final(self), Seq::new(old(self).kets.len() as nat, |i: int| cx_ket(old(self).model()[i], source as int, target as int))),
            old(self).bounded() ==> final(self).bounded(),
    {
        let mut i: usize = 0;
        while i < self.kets.len()
            invariant
                i <= self.kets.len(),
                self.kets.len() == old(self).kets.len(),
                self.num_qubits == old(self).num_qubits,
                self.symbol == old(self).symbol,
                self.backend == old(self).backend,
                self.lazy == old(self).lazy,
                self.verbose == old(self).verbose,
                self.scale == old(self).scale,
                source < self.num_qubits,
                target < self.num_qubits,
                old(self).wf(),
                forall|j: int| 0 <= j < i ==> #[trigger] self.kets@[j]@ == cx_ket(old(self).kets@[j]@, source as int, target as int),
                forall|j: int| i <= j < self.kets.len() ==> #[trigger] self.kets@[j] == old(self).kets@[j],
            decreases self.kets.len() - i,
        {
            assert(old(self).model()[i as int].bits.len() == self.num_qubits);
            self.kets[i].cx(source, target);
            i += 1;
        }
        assert(self.model() =~= Seq::new(old(self).kets.len() as nat, |i: int| cx_ket(old(self).model()[i], source as int, target as int)));
        proof {
            lemma_mass_same(self.model(), old(self).model());
        }
        assert(all_width(self.model(), self.num_qubits as nat)) by {
            assert forall|j: int| 0 <= j < self.model().len() implies (#[trigger] self.model()[j]).bits.len() == self.num_qubits by {
                assert(old(self).model()[j].bits.len() == self.num_qubits);
            }
        }
    }
}

} // verus!
