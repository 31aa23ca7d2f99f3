//! All registers of one circuit, by name, and the operations that span them.

use vstd::prelude::*;
use crate::coefficient::{ComplexCoefficient, MAX_MAGNITUDE, cmul, cmul_fits, norm_sq};
use crate::ket::{Ket, KetModel, create_ket, cx_ket, ents_view, flip, on};
use crate::state::{
    State, abs, cabs, component, lemma_components_bounded, lemma_mass_elem, lemma_mass_nonneg,
    lemma_prune_consistent, mass, models, prune, select,
};

verus! {

/// Index of the first entry named `name`, or the length if there is none.
pub open spec fn find_name(s: Seq<(char, State)>, name: char) -> int
    decreases s.len(),
{
    if s.len() == 0 {
        0
    } else if s[0].0 == name {
        0
    } else {
        1 + find_name(s.drop_first(), name)
    }
}

/// True when no two entries share a name.
pub open spec fn names_distinct(s: Seq<(char, State)>) -> bool {
    forall|i: int, j: int| 0 <= i < j < s.len() ==> (#[trigger] s[i]).0 != (#[trigger] s[j]).0
}

/// The entries with `state` stored under `name`: it replaces the entry of that
/// name, or is appended.
pub open spec fn with_entry(s: Seq<(char, State)>, name: char, state: State) -> Seq<(char, State)> {
    let i = find_name(s, name);
    if i < s.len() {
        s.update(i, (name, state))
    } else {
        s.push((name, state))
    }
}

/// The entries after storing each of `v` in turn.
pub open spec fn entries_of(v: Seq<(char, State)>) -> Seq<(char, State)>
    decreases v.len(),
{
    if v.len() == 0 {
        seq![]
    } else {
        with_entry(entries_of(v.drop_last()), v.last().0, v.last().1)
    }
}

/// The kept branch of a target ket under a controlled X from another register:
/// amplitude times the control's bit-0 component `alpha`, and a record that the
/// control was measured to 0.
pub open spec fn kept_branch(k: KetModel, alpha: (int, int), e: (bool, char, usize)) -> KetModel {
    KetModel { coeff: cmul(k.coeff, alpha), bits: k.bits, ents: k.ents.push(e) }
}

/// The flipped branch of a target ket under a controlled X from another
/// register: target bit flipped, amplitude times the control's bit-1 component
/// `beta`, and only a record that the control was measured to 1.
pub open spec fn flipped_branch(k: KetModel, beta: (int, int), q: int, e: (bool, char, usize)) -> KetModel {
    KetModel { coeff: cmul(k.coeff, beta), bits: flip(k.bits, q), ents: seq![e] }
}

/// The target register's kets after a controlled X from qubit `sq` of register
/// `ss`, whose components are `alpha` (bit 0) and `beta` (bit 1): every ket in
/// its kept branch, then every ket in its flipped branch.
pub open spec fn entangled_cx(
    t: Seq<KetModel>,
    alpha: (int, int),
    beta: (int, int),
    ss: char,
    sq: usize,
    tq: int,
) -> Seq<KetModel> {
    Seq::new(t.len(), |i: int| kept_branch(t[i], alpha, (false, ss, sq)))
        + Seq::new(t.len(), |i: int| flipped_branch(t[i], beta, tq, (true, ss, sq)))
}

/// A register's kets after measuring qubit `qubit` of register `target` (at
/// index `ti`) with outcome `outcome`: the measured register first keeps the
/// kets that agree with the outcome, then every register is pruned.
pub open spec fn after_measure(
    s: Seq<(char, State)>,
    i: int,
    ti: int,
    target: char,
    qubit: usize,
    outcome: bool,
) -> Seq<KetModel> {
    let m = if i == ti { select(s[i].1.model(), qubit as int, outcome) } else { s[i].1.model() };
    prune(m, target, qubit, outcome)
}

/// `find_name` is the first index holding the name, or the length.
pub proof fn lemma_find_name(s: Seq<(char, State)>, name: char)
    ensures
        0 <= find_name(s, name) <= s.len(),
        forall|k: int| 0 <= k < find_name(s, name) ==> (#[trigger] s[k]).0 != name,
        find_name(s, name) < s.len() ==> s[find_name(s, name)].0 == name,
    decreases s.len(),
{
    if s.len() > 0 && s[0].0 != name {
        let rest = s.drop_first();
        lemma_find_name(rest, name);
        assert forall|k: int| 0 <= k < find_name(s, name) implies (#[trigger] s[k]).0 != name by {
            if k > 0 {
                assert(s[k] == rest[k - 1]);
            }
        }
    }
}

/// Entries with the same names in the same places find a name at the same index.
pub proof fn lemma_same_names(a: Seq<(char, State)>, b: Seq<(char, State)>, name: char)
    requires
        a.len() == b.len(),
        forall|k: int| 0 <= k < a.len() ==> (#[trigger] a[k]).0 == b[k].0,
    ensures
        find_name(a, name) == find_name(b, name),
    decreases a.len(),
{
    if a.len() > 0 {
        assert(a[0].0 == b[0].0);
        let a1 = a.drop_first();
        let b1 = b.drop_first();
        assert forall|k: int| 0 <= k < a1.len() implies (#[trigger] a1[k]).0 == b1[k].0 by {
            assert(a1[k] == a[k + 1]);
            assert(b1[k] == b[k + 1]);
        }
        lemma_same_names(a1, b1, name);
    }
}

/// Storing an entry keeps the names distinct.
pub proof fn lemma_with_entry(s: Seq<(char, State)>, name: char, state: State)
    requires
        names_distinct(s),
    ensures
        names_distinct(with_entry(s, name, state)),
{
    lemma_find_name(s, name);
}

/// A product of two Gaussian integers fits when the product of their `cabs` does.
pub proof fn lemma_cmul_fits(a: (int, int), b: (int, int))
    requires
        cabs(a) * cabs(b) <= MAX_MAGNITUDE,
    ensures
        cmul_fits(a, b),
{
    let x0 = abs(a.0);
    let x1 = abs(a.1);
    let y0 = abs(b.0);
    let y1 = abs(b.1);
    let big = MAX_MAGNITUDE as int;
    assert(abs(a.0 * b.0) == x0 * y0 && abs(a.1 * b.1) == x1 * y1 && abs(a.0 * b.1) == x0 * y1
        && abs(a.1 * b.0) == x1 * y0) by (nonlinear_arith)
        requires x0 == abs(a.0), x1 == abs(a.1), y0 == abs(b.0), y1 == abs(b.1);
    assert(x0 * y0 + x1 * y1 + x0 * y1 + x1 * y0 <= big) by (nonlinear_arith)
        requires (x0 + x1) * (y0 + y1) <= big, x0 >= 0, x1 >= 0, y0 >= 0, y1 >= 0;
    assert(0 <= x0 * y0 && 0 <= x1 * y1 && 0 <= x0 * y1 && 0 <= x1 * y0) by (nonlinear_arith)
        requires x0 >= 0, x1 >= 0, y0 >= 0, y1 >= 0;
}

/// Multiplying bounds: `a <= c` and `b <= d` give `a * b <= c * d` for non-negative values.
pub proof fn lemma_mul_le(a: int, b: int, c: int, d: int)
    requires
        0 <= a <= c,
        0 <= b <= d,
    ensures
        a * b <= c * d,
{
    assert(a * b <= c * d) by (nonlinear_arith)
        requires 0 <= a <= c, 0 <= b <= d;
}

/// The target register after a controlled X from another register whose
/// control qubit has components `alpha` (bit 0) and `beta` (bit 1) and whose
/// denominator is `source_scale`.
fn entangled_target(
    target: &State,
    alpha: ComplexCoefficient,
    beta: ComplexCoefficient,
    source_system: char,
    source_qubit: usize,
    target_qubit: usize,
    source_scale: u128,
) -> (r: State)
    requires
        target.wf(),
        target_qubit < target.num_qubits,
        source_scale > 0,
        target.scale * source_scale <= u128::MAX,
        mass(target.model()) * (cabs(alpha@) + cabs(beta@)) <= MAX_MAGNITUDE,
    ensures
        r.wf(),
        r.scale == target.scale * source_scale,
        target.with_model(&r, entangled_cx(target.model(), alpha@, beta@, source_system, source_qubit, target_qubit as int)),
{
    let ghost t = target.model();
    proof { lemma_mass_nonneg(t); }
    let mut kept: Vec<Ket> = Vec::new();
    let mut flipped: Vec<Ket> = Vec::new();
    let n = target.kets.len();
    let mut i: usize = 0;
    proof {
        assert(models(kept@) =~= Seq::new(0, |k: int| kept_branch(t[k], alpha@, (false, source_system, source_qubit))));
        assert(models(flipped@) =~= Seq::new(0, |k: int| flipped_branch(t[k], beta@, target_qubit as int, (true, source_system, source_qubit))));
    }
    while i < n
        invariant
            i <= n,
            n == t.len(),
            t == target.model(),
            target.wf(),
            target_qubit < target.num_qubits,
            mass(t) * (cabs(alpha@) + cabs(beta@)) <= MAX_MAGNITUDE,
            0 <= mass(t),
            models(kept@) == Seq::new(i as nat, |k: int| kept_branch(t[k], alpha@, (false, source_system, source_qubit))),
            models(flipped@) == Seq::new(i as nat, |k: int| flipped_branch(t[k], beta@, target_qubit as int, (true, source_system, source_qubit))),
        decreases n - i,
    {
        let k = &target.kets[i];
        proof {
            assert(t[i as int] == k@);
            assert(k@.bits.len() == target.num_qubits);
            lemma_mass_elem(t, i as int);
            lemma_mul_le(cabs(k@.coeff), cabs(alpha@), mass(t), cabs(alpha@) + cabs(beta@));
            lemma_mul_le(cabs(k@.coeff), cabs(beta@), mass(t), cabs(alpha@) + cabs(beta@));
            lemma_cmul_fits(k@.coeff, alpha@);
            lemma_cmul_fits(k@.coeff, beta@);
        }
        let mut copy = create_ket(k.get_coefficient(), k.get_val(), Vec::new());
        assert(ents_view(Seq::<crate::ket::Entanglement>::empty()) =~= seq![]);
        copy.x(target_qubit);
        copy.set_coefficient(copy.get_coefficient().multiply_by_complex_coefficient(beta));
        copy.entangle(true, source_system, source_qubit);
        let mut same = k.duplicate();
        same.set_coefficient(same.get_coefficient().multiply_by_complex_coefficient(alpha));
        same.entangle(false, source_system, source_qubit);
        assert(same@ == kept_branch(t[i as int], alpha@, (false, source_system, source_qubit)));
        assert(copy@.ents =~= seq![(true, source_system, source_qubit)]);
        assert(copy@ == flipped_branch(t[i as int], beta@, target_qubit as int, (true, source_system, source_qubit)));
        let ghost prev_kept = kept@;
        let ghost prev_flipped = flipped@;
        let ghost same_model = same@;
        let ghost copy_model = copy@;
        kept.push(same);
        flipped.push(copy);
        proof {
            assert(models(kept@) =~= models(prev_kept).push(same_model));
            assert(models(flipped@) =~= models(prev_flipped).push(copy_model));
            assert(models(kept@) =~= Seq::new((i + 1) as nat, |k: int| kept_branch(t[k], alpha@, (false, source_system, source_qubit))));
            assert(models(flipped@) =~= Seq::new((i + 1) as nat, |k: int| flipped_branch(t[k], beta@, target_qubit as int, (true, source_system, source_qubit))));
        }
        i += 1;
    }
    let ghost kept_models = models(kept@);
    let ghost flipped_models = models(flipped@);
    kept.append(&mut flipped);
    proof {
        assert(models(kept@) =~= kept_models + flipped_models);
    }
    let mut result = target.clone_state();
    let new_scale = result.scale * source_scale;
    assert(new_scale > 0) by (nonlinear_arith)
        requires new_scale == result.scale * source_scale, result.scale > 0, source_scale > 0;
    result.kets = kept;
    result.scale = new_scale;
    proof {
        let em = entangled_cx(t, alpha@, beta@, source_system, source_qubit, target_qubit as int);
        assert(result.model() =~= em);
        assert forall|k: int| 0 <= k < em.len() implies (#[trigger] em[k]).bits.len() == result.num_qubits by {
            if k < t.len() {
                assert(t[k].bits.len() == result.num_qubits);
            } else {
                assert(t[k - t.len()].bits.len() == result.num_qubits);
            }
        }
    }
    result
}

/// The registers after `cx(source_system, source_qubit, target_system, target_qubit)`
/// on `old`: see `Ensemble::cx`.
pub open spec fn cx_post(
    old: Ensemble,
    new: Ensemble,
    source_system: char,
    source_qubit: usize,
    target_system: char,
    target_qubit: usize,
) -> bool {
    let before = old.spec_get(target_system);
    let after = new.spec_get(target_system);
    let source = old.spec_get(source_system);
    &&& new.wf()
    &&& new.subsystems@.len() == old.subsystems@.len()
    &&& forall|i: int|
        0 <= i < old.subsystems@.len() && i != find_name(old.subsystems@, target_system)
        ==> #[trigger] new.subsystems@[i] == old.subsystems@[i]
    &&& new.has(target_system)
    &&& after.wf()
    &&& before.with_model(
        &after,
        if source_system == target_system {
            Seq::new(
                before.kets.len() as nat,
                |i: int| cx_ket(before.model()[i], source_qubit as int, target_qubit as int),
            )
        } else {
            entangled_cx(
                before.model(),
                component(source.model(), source_qubit as int, false),
                component(source.model(), source_qubit as int, true),
                source_system,
                source_qubit,
                target_qubit as int,
            )
        },
    )
    &&& after.scale == if source_system == target_system {
        before.scale as int
    } else {
        before.scale * source.scale
    }
    &&& source_system != target_system ==> new.spec_get(source_system) == source
}

/// The registers after measuring qubit `qubit` of register `target` of `old`
/// with outcome `r`: see `Ensemble::measure_with`. The last clause says that
/// every record left about the measured qubit, in every register, agrees with
/// the outcome.
pub open spec fn measure_post(old: Ensemble, new: Ensemble, target: char, qubit: usize, r: bool) -> bool {
    &&& new.wf()
    &&& new.subsystems@.len() == old.subsystems@.len()
    &&& forall|i: int| 0 <= i < old.subsystems@.len() ==> {
        let before = #[trigger] old.subsystems@[i];
        let after = new.subsystems@[i];
        &&& after.0 == before.0
        &&& before.1.with_model(
            &after.1,
            after_measure(old.subsystems@, i, find_name(old.subsystems@, target), target, qubit, r),
        )
        &&& after.1.scale == before.1.scale
        &&& before.1.wf() ==> after.1.wf()
    }
    &&& forall|i: int, k: int, j: int|
        0 <= i < new.subsystems@.len()
        && 0 <= k < new.subsystems@[i].1.model().len()
        && 0 <= j < new.subsystems@[i].1.model()[k].ents.len()
        && on(#[trigger] new.subsystems@[i].1.model()[k].ents[j], target, qubit)
        ==> new.subsystems@[i].1.model()[k].ents[j].0 == r
}

/// The registers of a circuit.
pub struct Ensemble {
    pub subsystems: Vec<(char, State)>,
}

/// Initializes an ensemble from named registers; a later entry replaces an
/// earlier one of the same name.
pub fn create_ensemble(subsystems: Vec<(char, State)>) -> (r: Ensemble)
    ensures
        r.wf(),
        r.subsystems@ == entries_of(subsystems@),
{
    let mut r = Ensemble { subsystems: Vec::new() };
    let mut rest = subsystems;
    let ghost all = rest@;
    let n = rest.len();
    assert(all.len() == n);
    // Store the entries front to back.
    let mut reversed: Vec<(char, State)> = Vec::new();
    while rest.len() > 0
        invariant
            reversed@.len() + rest@.len() == all.len(),
            all.len() <= usize::MAX,
            forall|i: int| 0 <= i < rest@.len() ==> #[trigger] rest@[i] == all[i],
            forall|i: int| 0 <= i < reversed@.len() ==> #[trigger] reversed@[i] == all[all.len() - 1 - i],
        decreases rest.len(),
    {
        let e = rest.pop().unwrap();
        reversed.push(e);
    }
    let mut i: usize = 0;
    proof { assert(all.take(0) =~= Seq::<(char, State)>::empty()); }
    while reversed.len() > 0
        invariant
            reversed@.len() + i == all.len(),
            all.len() <= usize::MAX,
            forall|k: int| 0 <= k < reversed@.len() ==> #[trigger] reversed@[k] == all[all.len() - 1 - k],
            r.wf(),
            r.subsystems@ == entries_of(all.take(i as int)),
        decreases reversed.len(),
    {
        let e = reversed.pop().unwrap();
        assert(e == all[i as int]);
        assert(all.take(i + 1).drop_last() =~= all.take(i as int));
        r.add_subsystem(e.1, e.0);
        i += 1;
    }
    assert(all.take(i as int) =~= all);
    r
}

impl Ensemble {
    /// No two registers share a name.
    pub open spec fn wf(&self) -> bool {
        names_distinct(self.subsystems@)
    }

    /// True when a register of that name exists.
    pub open spec fn has(&self, name: char) -> bool {
        find_name(self.subsystems@, name) < self.subsystems@.len()
    }

    /// The register of that name; meaningful when `has(name)`.
    pub open spec fn spec_get(&self, name: char) -> State {
        self.subsystems@[find_name(self.subsystems@, name)].1
    }

    /// The index of the register named `name`.
    pub fn position(&self, name: char) -> (r: Option<usize>)
        ensures
            r.is_some() == self.has(name),
            r.is_some() ==> r.unwrap() == find_name(self.subsystems@, name),
    {
        proof { lemma_find_name(self.subsystems@, name); }
        let mut i: usize = 0;
        while i < self.subsystems.len()
            invariant
                i <= self.subsystems.len(),
                forall|k: int| 0 <= k < i ==> (#[trigger] self.subsystems@[k]).0 != name,
            decreases self.subsystems.len() - i,
        {
            if self.subsystems[i].0 == name {
                proof {
                    lemma_find_name(self.subsystems@, name);
                    let f = find_name(self.subsystems@, name);
                    if f < i {
                        assert(self.subsystems@[f].0 != name);
                    }
                }
                return Some(i);
            }
            i += 1;
        }
        None
    }

    /// The register named `name`, if there is one.
    pub fn get(&self, name: char) -> (r: Option<&State>)
        ensures
            r.is_some() == self.has(name),
            r.is_some() ==> *r.unwrap() == self.spec_get(name),
    {
        match self.position(name) {
            Some(i) => Some(&self.subsystems[i].1),
            None => None,
        }
    }

    /// Controlled X from qubit `source_qubit` of register `source_system` to
    /// qubit `target_qubit` of register `target_system`. Within one register
    /// this is that register's own controlled X. Across registers the target
    /// records the entanglement: each of its kets is kept with its amplitude
    /// times the source's bit-0 component and a record that the source reads 0,
    /// and a copy with the target bit flipped is added, with its amplitude times
    /// the bit-1 component and only a record that the source reads 1. So the
    /// target is flipped exactly in the branch where the control is 1. The
    /// source register is left as it is.
    pub fn cx(
        &mut self,
        source_system: char,
        source_qubit: usize,
        target_system: char,
        target_qubit: usize,
    )
        requires
            old(self).wf(),
            old(self).has(source_system),
            old(self).has(target_system),
            old(self).spec_get(source_system).wf(),
            old(self).spec_get(target_system).wf(),
            source_qubit < old(self).spec_get(source_system).num_qubits,
            target_qubit < old(self).spec_get(target_system).num_qubits,
            source_system != target_system ==> {
                &&& old(self).spec_get(source_system).bounded()
                &&& mass(old(self).spec_get(target_system).model()) * mass(
                    old(self).spec_get(source_system).model(),
                ) <= MAX_MAGNITUDE
                &&& old(self).spec_get(target_system).scale * old(self).spec_get(
                    source_system,
                ).scale <= u128::MAX
            },
        ensures
            cx_post(*old(self), *final(self), source_system, source_qubit, target_system, target_qubit),
    {
        proof {
            lemma_find_name(self.subsystems@, source_system);
            lemma_find_name(self.subsystems@, target_system);
        }
        let si = self.position(source_system).unwrap();
        let ti = self.position(target_system).unwrap();
        let target = if source_system == target_system {
            let mut target = self.subsystems[ti].1.clone_state();
            let ghost before = target;
            target.cx(source_qubit, target_qubit);
            proof {
                let old_t = self.subsystems@[ti as int].1;
                assert(before.kets.len() == before.model().len());
                assert(old_t.kets.len() == old_t.model().len());
                assert(target.model() =~= Seq::new(
                    old_t.kets.len() as nat,
                    |i: int| cx_ket(old_t.model()[i], source_qubit as int, target_qubit as int),
                ));
            }
            target
        } else {
            let comps = self.subsystems[si].1.get_components(source_qubit);
            proof {
                lemma_components_bounded(self.subsystems@[si as int].1.model(), source_qubit as int);
                lemma_mass_nonneg(self.subsystems@[ti as int].1.model());
                lemma_mul_le(mass(self.subsystems@[ti as int].1.model()), cabs(comps[0]@) + cabs(comps[1]@),
                    mass(self.subsystems@[ti as int].1.model()), mass(self.subsystems@[si as int].1.model()));
            }
            let source_scale = self.subsystems[si].1.scale;
            entangled_target(&self.subsystems[ti].1, comps[0], comps[1], source_system,
                source_qubit, target_qubit, source_scale)
        };
        let ghost stored = target;
        self.subsystems.set(ti, (target_system, target));
        proof {
            assert(self.subsystems@[ti as int].1 == stored);
            assert forall|i: int, j: int| 0 <= i < j < self.subsystems@.len() implies
                (#[trigger] self.subsystems@[i]).0 != (#[trigger] self.subsystems@[j]).0 by {
                assert(old(self).subsystems@[i].0 != old(self).subsystems@[j].0);
            }
            assert forall|k: int| 0 <= k < self.subsystems@.len() implies (#[trigger] self.subsystems@[k]).0 == old(self).subsystems@[k].0 by {}
            lemma_same_names(self.subsystems@, old(self).subsystems@, target_system);
            lemma_same_names(self.subsystems@, old(self).subsystems@, source_system);
        }
    }

    /// Measures qubit `qubit` of register `target` with a drawn number, as
    /// `State::measure_with` does, then prunes every register, the measured one
    /// included, by the outcome.
    pub fn measure_with(&mut self, target: char, qubit: usize, draw: u128) -> (r: bool)
        requires
            old(self).wf(),
            old(self).has(target),
            old(self).spec_get(target).wf(),
            old(self).spec_get(target).bounded(),
            qubit < old(self).spec_get(target).num_qubits,
        ensures
            r == (draw >= norm_sq(component(old(self).spec_get(target).model(), qubit as int, false))),
            measure_post(*old(self), *final(self), target, qubit, r),
    {
        proof { lemma_find_name(self.subsystems@, target); }
        let ti = self.position(target).unwrap();
        let mut measured = self.subsystems[ti].1.clone_state();
        let outcome = measured.measure_with(qubit, draw);
        self.subsystems.set(ti, (target, measured));
        let ghost mid = self.subsystems@;
        let mut i: usize = 0;
        while i < self.subsystems.len()
            invariant
                i <= self.subsystems.len(),
                self.subsystems@.len() == old(self).subsystems@.len(),
                mid.len() == old(self).subsystems@.len(),
                ti == find_name(old(self).subsystems@, target),
                ti < mid.len(),
                mid[ti as int].0 == target,
                old(self).subsystems@[ti as int].0 == target,
                mid[ti as int].1.model() == select(old(self).subsystems@[ti as int].1.model(), qubit as int, outcome),
                mid[ti as int].1.scale == old(self).subsystems@[ti as int].1.scale,
                old(self).subsystems@[ti as int].1.with_model(&mid[ti as int].1, mid[ti as int].1.model()),
                mid[ti as int].1.wf(),
                forall|k: int| 0 <= k < mid.len() && k != ti ==> #[trigger] mid[k] == old(self).subsystems@[k],
                forall|k: int| i <= k < mid.len() ==> #[trigger] self.subsystems@[k] == mid[k],
                forall|k: int| 0 <= k < i ==> {
                    let before = #[trigger] old(self).subsystems@[k];
                    let after = self.subsystems@[k];
                    &&& after.0 == before.0
                    &&& before.1.with_model(&after.1, after_measure(old(self).subsystems@, k, ti as int, target, qubit, outcome))
                    &&& after.1.scale == before.1.scale
                    &&& before.1.wf() ==> after.1.wf()
                },
            decreases self.subsystems.len() - i,
        {
            let mut st = self.subsystems[i].1.clone_state();
            let name = self.subsystems[i].0;
            st.prune(target, qubit, outcome);
            let ghost stored = st;
            self.subsystems.set(i, (name, st));
            proof {
                let k = i as int;
                let before = old(self).subsystems@[k];
                let after = self.subsystems@[k];
                assert(after.1 == stored);
                if k == ti as int {
                    assert(after_measure(old(self).subsystems@, k, ti as int, target, qubit, outcome)
                        == prune(mid[k].1.model(), target, qubit, outcome));
                } else {
                    assert(mid[k] == before);
                }
                assert(after.0 == before.0);
                assert(before.1.with_model(&after.1, after_measure(old(self).subsystems@, k, ti as int, target, qubit, outcome)));
            }
            i += 1;
        }
        proof {
            assert(names_distinct(self.subsystems@)) by {
                assert forall|a: int, b: int| 0 <= a < b < self.subsystems@.len() implies
                    (#[trigger] self.subsystems@[a]).0 != (#[trigger] self.subsystems@[b]).0 by {
                    assert(old(self).subsystems@[a].0 != old(self).subsystems@[b].0);
                }
            }
            assert forall|i: int, k: int, j: int|
                0 <= i < self.subsystems@.len()
                && 0 <= k < self.subsystems@[i].1.model().len()
                && 0 <= j < self.subsystems@[i].1.model()[k].ents.len()
                && on(#[trigger] self.subsystems@[i].1.model()[k].ents[j], target, qubit)
                implies self.subsystems@[i].1.model()[k].ents[j].0 == outcome by {
                let before = old(self).subsystems@[i];
                let m = if i == ti as int { select(before.1.model(), qubit as int, outcome) } else { before.1.model() };
                lemma_prune_consistent(m, target, qubit, outcome);
                assert(self.subsystems@[i].1.model() == prune(m, target, qubit, outcome));
            }
        }
        outcome
    }

    /// Measures qubit `qubit` of register `target`: the outcome is drawn with
    /// the Born rule, the measured register keeps the kets that agree with it,
    /// and every register drops the kets whose records disagree with it.
    pub fn m(&mut self, target: char, qubit: usize) -> (r: bool)
        requires
            old(self).wf(),
            old(self).has(target),
            old(self).spec_get(target).wf(),
            old(self).spec_get(target).bounded(),
            qubit < old(self).spec_get(target).num_qubits,
        ensures
            norm_sq(component(old(self).spec_get(target).model(), qubit as int, false)) == 0 ==> r,
            norm_sq(component(old(self).spec_get(target).model(), qubit as int, true)) == 0
                && norm_sq(component(old(self).spec_get(target).model(), qubit as int, false)) > 0 ==> !r,
            measure_post(*old(self), *final(self), target, qubit, r),
    {
        proof { lemma_find_name(self.subsystems@, target); }
        let ti = self.position(target).unwrap();
        let (p0, p1) = self.subsystems[ti].1.weights(qubit);
        let total = p0 + p1;
        let draw = if total > 0 {
            crate::state::draw_below(total)
        } else {
            0
        };
        self.measure_with(target, qubit, draw)
    }

    /// Stores a register under `name`, replacing any register of that name.
    pub fn add_subsystem(&mut self, state: State, name: char)
        requires
            old(self).wf(),
        ensures
            final(self).wf(),
            final(self).subsystems@ == with_entry(old(self).subsystems@, name, state),
    {
        proof { lemma_with_entry(self.subsystems@, name, state); }
        match self.position(name) {
            Some(i) => {
                self.subsystems.set(i, (name, state));
            },
            None => {
                self.subsystems.push((name, state));
            },
        }
    }
}

} // verus!
