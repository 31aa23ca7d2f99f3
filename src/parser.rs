//! Running a parsed program: register declarations, gate applications and
//! measurements, dispatched onto an ensemble and a set of classical registers.

use std::collections::BTreeMap;
use vstd::prelude::*;
use crate::bits::bits_filled;
use crate::coefficient::{MAX_MAGNITUDE, complex_from_parts, norm_sq};
use crate::ensemble::{
    Ensemble, cx_post, find_name, lemma_find_name, lemma_same_names, measure_post, with_entry,
};
use crate::ket::{Ket, KetModel, create_ket, ents_view, x_ket, y_ket, z_ket};
use crate::state::{State, component, create_state, h_model, mass};

verus! {

broadcast use vstd::laws_cmp::group_laws_cmp;

/// The ket a register starts in: all bits 0, amplitude 1, no records.
pub open spec fn initial_ket(n: nat) -> KetModel {
    KetModel { coeff: (1, 0), bits: Seq::new(n, |i: int| false), ents: seq![] }
}

/// True when `s` is a freshly declared register of `n` qubits named `symbol`.
pub open spec fn initial_state(s: State, n: usize, symbol: char) -> bool {
    &&& s.wf()
    &&& s.model() == seq![initial_ket(n as nat)]
    &&& s.num_qubits == n
    &&& s.symbol == symbol
    &&& s.scale == 1
}

/// Initializes the ket of a fresh register of `num_qubits` qubits.
pub fn init_ket(num_qubits: usize) -> (r: Ket)
    ensures
        r@ == initial_ket(num_qubits as nat),
{
    let coeff = complex_from_parts(1, 0);
    let bits = bits_filled(num_qubits, false);
    let r = create_ket(coeff, bits, Vec::new());
    assert(ents_view(Seq::<crate::ket::Entanglement>::empty()) =~= seq![]);
    r
}

/// Initializes a register of `num_qubits` qubits named `symbol`, holding one
/// all-zero ket.
pub fn init_state(num_qubits: usize, symbol: char) -> (r: State)
    ensures
        initial_state(r, num_qubits, symbol),
        r.bounded(),
{
    let mut kets: Vec<Ket> = Vec::new();
    kets.push(init_ket(num_qubits));
    let r = create_state(kets, num_qubits, symbol, None, None, None);
    assert(r.model() =~= seq![initial_ket(num_qubits as nat)]);
    assert(r.model().drop_last() =~= Seq::<KetModel>::empty());
    assert(mass(Seq::<KetModel>::empty()) == 0);
    assert(r.model().last() == initial_ket(num_qubits as nat));
    assert(mass(r.model()) == 1);
    r
}

/// Initializes an ensemble without registers.
pub fn init_ensemble() -> (r: Ensemble)
    ensures
        r.wf(),
        r.subsystems@ == Seq::<(char, State)>::empty(),
{
    Ensemble { subsystems: Vec::new() }
}

/// Initializes an empty classical register.
pub fn init_classical_reg(size: usize) -> (r: BTreeMap<usize, usize>)
    ensures
        r@ == Map::<usize, usize>::empty(),
{
    BTreeMap::new()
}


/// One operand of a statement: one qubit (or bit) of a register, or a whole register.
#[derive(Clone, Copy, Debug, PartialEq, Eq, Structural)]
pub enum Operand {
    Qubit(char, usize),
    Register(char),
}

/// One statement of a parsed program.
#[derive(Clone, Debug)]
pub enum Operation {
    /// Declares a quantum register: name and number of qubits.
    QReg(char, usize),
    /// Declares a classical register: name and number of bits.
    CReg(char, usize),
    /// Measures a qubit into a classical bit.
    Measure(Operand, Operand),
    /// Applies the named gate to the operands.
    ApplyGate(String, Vec<Operand>),
    /// Any other statement; it is skipped.
    Unsupported,
}

/// The gates the simulator applies.
#[derive(Clone, Copy, Debug, PartialEq, Eq, Structural)]
pub enum Gate {
    X,
    Y,
    Z,
    H,
    CX,
}

/// Why a statement could not be run.
#[derive(Clone, Copy, Debug, PartialEq, Eq, Structural)]
pub enum RunError {
    /// No quantum register has this name.
    UnknownRegister(char),
    /// The register has no qubit of this index.
    QubitOutOfRange(char, usize),
    /// The amplitudes of this register grew past what the simulator can hold.
    Overflow(char),
}

/// Which of the simulated gates a name denotes.
pub open spec fn gate_of(name: Seq<char>) -> Option<Gate> {
    if name == seq!['x'] {
        Some(Gate::X)
    } else if name == seq!['y'] {
        Some(Gate::Y)
    } else if name == seq!['z'] {
        Some(Gate::Z)
    } else if name == seq!['h'] {
        Some(Gate::H)
    } else if name == seq!['c', 'x'] {
        Some(Gate::CX)
    } else {
        None
    }
}

/// Looks up a gate by its name.
pub fn gate_named(name: &String) -> (r: Option<Gate>)
    ensures
        r == gate_of(name@),
{
    proof {
        reveal_strlit("x");
        reveal_strlit("y");
        reveal_strlit("z");
        reveal_strlit("h");
        reveal_strlit("cx");
        assert("x"@ =~= seq!['x']);
        assert("y"@ =~= seq!['y']);
        assert("z"@ =~= seq!['z']);
        assert("h"@ =~= seq!['h']);
        assert("cx"@ =~= seq!['c', 'x']);
    }
    if *name == "x".to_owned() {
        Some(Gate::X)
    } else if *name == "y".to_owned() {
        Some(Gate::Y)
    } else if *name == "z".to_owned() {
        Some(Gate::Z)
    } else if *name == "h".to_owned() {
        Some(Gate::H)
    } else if *name == "cx".to_owned() {
        Some(Gate::CX)
    } else {
        None
    }
}

/// A register's kets after a single-qubit gate on qubit `q`.
pub open spec fn single_gate(g: Gate, m: Seq<KetModel>, q: int) -> Seq<KetModel> {
    match g {
        Gate::X => Seq::new(m.len(), |i: int| x_ket(m[i], q)),
        Gate::Y => Seq::new(m.len(), |i: int| y_ket(m[i], q)),
        Gate::Z => Seq::new(m.len(), |i: int| z_ket(m[i], q)),
        Gate::H => h_model(m, q),
        Gate::CX => m,
    }
}

/// Every register is well formed and no two share a name.
pub open spec fn registers_ok(e: Ensemble) -> bool {
    &&& e.wf()
    &&& forall|i: int| 0 <= i < e.subsystems@.len() ==> (#[trigger] e.subsystems@[i]).1.wf()
}

/// The registers after replacing the kets of register `name` by `m`, all else kept.
pub open spec fn gate_post(old: Ensemble, new: Ensemble, name: char, m: Seq<KetModel>) -> bool {
    &&& new.wf()
    &&& new.subsystems@.len() == old.subsystems@.len()
    &&& forall|i: int|
        0 <= i < old.subsystems@.len() && i != find_name(old.subsystems@, name)
        ==> #[trigger] new.subsystems@[i] == old.subsystems@[i]
    &&& new.has(name)
    &&& new.spec_get(name).wf()
    &&& old.spec_get(name).with_model(&new.spec_get(name), m)
    &&& new.spec_get(name).scale == old.spec_get(name).scale
}

/// True when a controlled X between two registers keeps every amplitude and
/// denominator representable.
pub open spec fn cx_fits(e: Ensemble, source: char, target: char) -> bool {
    &&& e.spec_get(source).bounded()
    &&& mass(e.spec_get(target).model()) * mass(e.spec_get(source).model()) <= MAX_MAGNITUDE
    &&& e.spec_get(target).scale * e.spec_get(source).scale <= u128::MAX
}

/// The classical registers as names and bit maps.
pub open spec fn classical_view(c: Seq<(char, BTreeMap<usize, usize>)>) -> Seq<(char, Map<usize, usize>)> {
    c.map_values(|e: (char, BTreeMap<usize, usize>)| (e.0, e.1@))
}

/// Index of the first classical register named `name`, or the length.
pub open spec fn find_creg(c: Seq<(char, Map<usize, usize>)>, name: char) -> int
    decreases c.len(),
{
    if c.len() == 0 {
        0
    } else if c[0].0 == name {
        0
    } else {
        1 + find_creg(c.drop_first(), name)
    }
}

/// The classical registers with `name` declared anew, empty.
pub open spec fn with_creg(c: Seq<(char, Map<usize, usize>)>, name: char) -> Seq<(char, Map<usize, usize>)> {
    let i = find_creg(c, name);
    if i < c.len() {
        c.update(i, (name, Map::empty()))
    } else {
        c.push((name, Map::empty()))
    }
}

/// The classical registers with bit `index` of register `name` set to `value`;
/// unchanged when there is no such register.
pub open spec fn write_bit(c: Seq<(char, Map<usize, usize>)>, name: char, index: usize, value: usize) -> Seq<(char, Map<usize, usize>)> {
    let i = find_creg(c, name);
    if i < c.len() {
        c.update(i, (name, c[i].1.insert(index, value)))
    } else {
        c
    }
}

/// `find_creg` is the first index holding the name, or the length.
pub proof fn lemma_find_creg(c: Seq<(char, Map<usize, usize>)>, name: char)
    ensures
        0 <= find_creg(c, name) <= c.len(),
        forall|k: int| 0 <= k < find_creg(c, name) ==> (#[trigger] c[k]).0 != name,
        find_creg(c, name) < c.len() ==> c[find_creg(c, name)].0 == name,
    decreases c.len(),
{
    if c.len() > 0 && c[0].0 != name {
        let rest = c.drop_first();
        lemma_find_creg(rest, name);
        assert forall|k: int| 0 <= k < find_creg(c, name) implies (#[trigger] c[k]).0 != name by {
            if k > 0 {
                assert(c[k] == rest[k - 1]);
            }
        }
    }
}

/// The index of the classical register named `name`, or the length.
fn creg_position(c: &Vec<(char, BTreeMap<usize, usize>)>, name: char) -> (r: usize)
    ensures
        r == find_creg(classical_view(c@), name),
{
    let ghost cv = classical_view(c@);
    let mut i: usize = 0;
    while i < c.len()
        invariant
            i <= c.len(),
            cv == classical_view(c@),
            forall|k: int| 0 <= k < i ==> (#[trigger] cv[k]).0 != name,
        decreases c.len() - i,
    {
        if c[i].0 == name {
            proof {
                lemma_find_creg(cv, name);
                let f = find_creg(cv, name);
                assert(cv[i as int].0 == name);
                if f < i {
                    assert(cv[f].0 != name);
                }
            }
            return i;
        }
        i += 1;
    }
    proof {
        lemma_find_creg(cv, name);
        let f = find_creg(cv, name);
        if f < i {
            assert(cv[f].0 != name);
        }
    }
    i
}

/// Declares the classical register `name`, empty; a register of that name is replaced.
pub fn declare_creg(c: &mut Vec<(char, BTreeMap<usize, usize>)>, name: char, size: usize)
    ensures
        classical_view(final(c)@) == with_creg(classical_view(old(c)@), name),
{
    let i = creg_position(c, name);
    let reg = init_classical_reg(size);
    if i < c.len() {
        c.set(i, (name, reg));
        assert(classical_view(c@) =~= with_creg(classical_view(old(c)@), name));
    } else {
        c.push((name, reg));
        assert(classical_view(c@) =~= with_creg(classical_view(old(c)@), name));
    }
}

/// Writes `value` to bit `index` of the classical register `name`, if it exists.
pub fn store_bit(c: &mut Vec<(char, BTreeMap<usize, usize>)>, name: char, index: usize, value: usize)
    ensures
        classical_view(final(c)@) == write_bit(classical_view(old(c)@), name, index, value),
{
    let i = creg_position(c, name);
    if i < c.len() {
        let mut reg = c[i].1.clone();
        reg.insert(index, value);
        c.set(i, (name, reg));
        assert(classical_view(c@) =~= write_bit(classical_view(old(c)@), name, index, value));
    }
}


/// The error a statement on qubit `q` of register `name` meets, if any.
pub open spec fn qubit_check(e: Ensemble, name: char, q: usize) -> Option<RunError> {
    if !e.has(name) {
        Some(RunError::UnknownRegister(name))
    } else if q >= e.spec_get(name).num_qubits {
        Some(RunError::QubitOutOfRange(name, q))
    } else {
        None
    }
}

/// What running statement `op` does: from registers `e0` and classical registers
/// `c0` to `e1` and `c1`, with result `r`. Unsupported statements, unknown gate
/// names and whole-register operands are skipped, and so is a single-qubit gate
/// on a register that does not exist; a failed statement changes nothing.
pub open spec fn operation_post(
    e0: Ensemble,
    e1: Ensemble,
    c0: Seq<(char, Map<usize, usize>)>,
    c1: Seq<(char, Map<usize, usize>)>,
    op: Operation,
    r: Result<(), RunError>,
) -> bool {
    let kept = e1 == e0 && c1 == c0;
    match op {
        Operation::QReg(name, size) => {
            &&& r is Ok
            &&& c1 == c0
            &&& e1.subsystems@ == with_entry(e0.subsystems@, name, e1.spec_get(name))
            &&& e1.has(name)
            &&& initial_state(e1.spec_get(name), size, name)
        },
        Operation::CReg(name, size) => r is Ok && e1 == e0 && c1 == with_creg(c0, name),
        Operation::Measure(source, dest) => match (source, dest) {
            (Operand::Qubit(qr, qi), Operand::Qubit(cr, ci)) => match qubit_check(e0, qr, qi) {
                Some(err) => r == Err::<(), RunError>(err) && kept,
                None => if !e0.spec_get(qr).bounded() {
                    r == Err::<(), RunError>(RunError::Overflow(qr)) && kept
                } else {
                    &&& r is Ok
                    &&& exists|o: bool|
                        #[trigger] measure_post(e0, e1, qr, qi, o)
                        && (norm_sq(component(e0.spec_get(qr).model(), qi as int, false)) == 0 ==> o)
                        && (norm_sq(component(e0.spec_get(qr).model(), qi as int, true)) == 0
                            && norm_sq(component(e0.spec_get(qr).model(), qi as int, false)) > 0 ==> !o)
                        && c1 == write_bit(
                            c0,
                            cr,
                            ci,
                            if o { 1usize } else { 0usize },
                        )
                },
            },
            _ => r is Ok && kept,
        },
        Operation::ApplyGate(name, operands) => match gate_of(name@) {
            None => r is Ok && kept,
            Some(Gate::CX) => if operands.len() >= 2 {
                match (operands@[0], operands@[1]) {
                    (Operand::Qubit(r1, i1), Operand::Qubit(r2, i2)) => match qubit_check(e0, r1, i1) {
                        Some(err) => r == Err::<(), RunError>(err) && kept,
                        None => match qubit_check(e0, r2, i2) {
                            Some(err) => r == Err::<(), RunError>(err) && kept,
                            None => if r1 != r2 && !cx_fits(e0, r1, r2) {
                                r == Err::<(), RunError>(RunError::Overflow(r2)) && kept
                            } else {
                                r is Ok && c1 == c0 && cx_post(e0, e1, r1, i1, r2, i2)
                            },
                        },
                    },
                    _ => r is Ok && kept,
                }
            } else {
                r is Ok && kept
            },
            Some(g) => if operands.len() >= 1 {
                match operands@[0] {
                    Operand::Qubit(reg, q) => if !e0.has(reg) {
                        r is Ok && kept
                    } else if q >= e0.spec_get(reg).num_qubits {
                        r == Err::<(), RunError>(RunError::QubitOutOfRange(reg, q)) && kept
                    } else if g == Gate::H && !e0.spec_get(reg).bounded() {
                        r == Err::<(), RunError>(RunError::Overflow(reg)) && kept
                    } else {
                        r is Ok && c1 == c0 && gate_post(
                            e0,
                            e1,
                            reg,
                            single_gate(g, e0.spec_get(reg).model(), q as int),
                        )
                    },
                    Operand::Register(_) => r is Ok && kept,
                }
            } else {
                r is Ok && kept
            },
        },
        Operation::Unsupported => r is Ok && kept,
    }
}

/// Storing a register under a name makes it the register of that name.
pub proof fn lemma_with_entry_get(s: Seq<(char, State)>, name: char, st: State)
    ensures
        find_name(with_entry(s, name, st), name) < with_entry(s, name, st).len(),
        with_entry(s, name, st)[find_name(with_entry(s, name, st), name)] == (name, st),
{
    lemma_find_name(s, name);
    let i = find_name(s, name);
    let t = with_entry(s, name, st);
    lemma_find_name(t, name);
    let f = find_name(t, name);
    if f < i {
        assert(t[f] == s[f]);
    }
    if f > i {
        assert(t[i].0 == name);
    }
}

/// Applies a single-qubit gate to qubit `q` of register `name`.
fn apply_gate(e: &mut Ensemble, g: Gate, name: char, q: usize)
    requires
        registers_ok(*old(e)),
        old(e).has(name),
        q < old(e).spec_get(name).num_qubits,
        g != Gate::CX,
        g == Gate::H ==> old(e).spec_get(name).bounded(),
    ensures
        registers_ok(*final(e)),
        gate_post(*old(e), *final(e), name, single_gate(g, old(e).spec_get(name).model(), q as int)),
{
    proof { lemma_find_name(e.subsystems@, name); }
    let i = e.position(name).unwrap();
    assert(e.subsystems@[i as int].1.wf());
    let mut st = e.subsystems[i].1.clone_state();
    let ghost before = st;
    match g {
        Gate::X => st.x(q),
        Gate::Y => st.y(q),
        Gate::Z => st.z(q),
        Gate::H => st.h(q),
        Gate::CX => {},
    }
    proof {
        let m = e.subsystems@[i as int].1.model();
        assert(before.kets.len() == m.len());
        assert(st.model() =~= single_gate(g, m, q as int));
    }
    let ghost stored = st;
    e.subsystems.set(i, (name, st));
    proof {
        assert(e.subsystems@[i as int].1 == stored);
        assert forall|a: int, b: int| 0 <= a < b < e.subsystems@.len() implies
            (#[trigger] e.subsystems@[a]).0 != (#[trigger] e.subsystems@[b]).0 by {
            assert(old(e).subsystems@[a].0 != old(e).subsystems@[b].0);
        }
        assert forall|k: int| 0 <= k < e.subsystems@.len() implies (#[trigger] e.subsystems@[k]).0 == old(e).subsystems@[k].0 by {}
        lemma_same_names(e.subsystems@, old(e).subsystems@, name);
        assert forall|k: int| 0 <= k < e.subsystems@.len() implies (#[trigger] e.subsystems@[k]).1.wf() by {
            if k != i {
                assert(e.subsystems@[k] == old(e).subsystems@[k]);
            }
        }
    }
}

/// True when a controlled X from register `source` to register `target` keeps
/// every amplitude and denominator representable.
fn cx_representable(e: &Ensemble, source: char, target: char) -> (r: bool)
    requires
        e.has(source),
        e.has(target),
    ensures
        r == cx_fits(*e, source, target),
{
    proof {
        lemma_find_name(e.subsystems@, source);
        lemma_find_name(e.subsystems@, target);
    }
    let si = e.position(source).unwrap();
    let ti = e.position(target).unwrap();
    let s = &e.subsystems[si].1;
    let t = &e.subsystems[ti].1;
    match (s.total_magnitude(), t.total_magnitude()) {
        (Some(ms), Some(mt)) => {
            let a = mt as u128;
            let b = ms as u128;
            assert(a * b <= 0x3fff_ffff_ffff_ffff_0000_0000_0000_0001) by (nonlinear_arith)
                requires a <= MAX_MAGNITUDE, b <= MAX_MAGNITUDE, a >= 0, b >= 0;
            let product = a * b;
            product <= MAX_MAGNITUDE as u128 && t.scale.checked_mul(s.scale).is_some()
        },
        (None, _) => false,
        (Some(ms), None) => {
            proof {
                crate::state::lemma_mass_nonneg(s.model());
                if mass(s.model()) > 0 {
                    assert(mass(t.model()) * mass(s.model()) > MAX_MAGNITUDE) by (nonlinear_arith)
                        requires mass(t.model()) > MAX_MAGNITUDE, mass(s.model()) > 0;
                }
            }
            ms == 0 && t.scale.checked_mul(s.scale).is_some()
        },
    }
}

/// Runs one statement on the registers `ensemble` and classical registers
/// `classical`.
pub fn apply_operation(
    ensemble: &mut Ensemble,
    classical: &mut Vec<(char, BTreeMap<usize, usize>)>,
    op: &Operation,
) -> (r: Result<(), RunError>)
    requires
        registers_ok(*old(ensemble)),
    ensures
        registers_ok(*final(ensemble)),
        operation_post(
            *old(ensemble),
            *final(ensemble),
            classical_view(old(classical)@),
            classical_view(final(classical)@),
            *op,
            r,
        ),
{
    match op {
        Operation::QReg(name, size) => {
            let st = init_state(*size, *name);
            let ghost fresh = st;
            proof { crate::ensemble::lemma_with_entry(ensemble.subsystems@, *name, st); }
            ensemble.add_subsystem(st, *name);
            proof {
                lemma_with_entry_get(old(ensemble).subsystems@, *name, fresh);
                lemma_find_name(old(ensemble).subsystems@, *name);
                assert forall|k: int| 0 <= k < ensemble.subsystems@.len() implies (#[trigger] ensemble.subsystems@[k]).1.wf() by {
                    let f = find_name(old(ensemble).subsystems@, *name);
                    if k < old(ensemble).subsystems@.len() && k != f {
                        assert(ensemble.subsystems@[k] == old(ensemble).subsystems@[k]);
                    }
                }
            }
            Ok(())
        },
        Operation::CReg(name, size) => {
            declare_creg(classical, *name, *size);
            Ok(())
        },
        Operation::Measure(source, dest) => match (source, dest) {
            (Operand::Qubit(qr, qi), Operand::Qubit(cr, ci)) => {
                proof { lemma_find_name(ensemble.subsystems@, *qr); }
                match ensemble.position(*qr) {
                    None => Err(RunError::UnknownRegister(*qr)),
                    Some(i) => {
                        if *qi >= ensemble.subsystems[i].1.num_qubits {
                            Err(RunError::QubitOutOfRange(*qr, *qi))
                        } else if ensemble.subsystems[i].1.total_magnitude().is_none() {
                            Err(RunError::Overflow(*qr))
                        } else {
                            let o = ensemble.m(*qr, *qi);
                            let value: usize = if o { 1 } else { 0 };
                            store_bit(classical, *cr, *ci, value);
                            proof {
                                assert forall|k: int| 0 <= k < ensemble.subsystems@.len() implies (#[trigger] ensemble.subsystems@[k]).1.wf() by {
                                    assert(old(ensemble).subsystems@[k].1.wf());
                                }
                            }
                            Ok(())
                        }
                    },
                }
            },
            _ => Ok(()),
        },
        Operation::ApplyGate(name, operands) => match gate_named(name) {
            None => Ok(()),
            Some(Gate::CX) => {
                if operands.len() >= 2 {
                    match (operands[0], operands[1]) {
                        (Operand::Qubit(r1, i1), Operand::Qubit(r2, i2)) => {
                            proof {
                                lemma_find_name(ensemble.subsystems@, r1);
                                lemma_find_name(ensemble.subsystems@, r2);
                            }
                            match (ensemble.position(r1), ensemble.position(r2)) {
                                (None, _) => Err(RunError::UnknownRegister(r1)),
                                (Some(a), None) => {
                                    if i1 >= ensemble.subsystems[a].1.num_qubits {
                                        Err(RunError::QubitOutOfRange(r1, i1))
                                    } else {
                                        Err(RunError::UnknownRegister(r2))
                                    }
                                },
                                (Some(a), Some(b)) => {
                                    if i1 >= ensemble.subsystems[a].1.num_qubits {
                                        Err(RunError::QubitOutOfRange(r1, i1))
                                    } else if i2 >= ensemble.subsystems[b].1.num_qubits {
                                        Err(RunError::QubitOutOfRange(r2, i2))
                                    } else if r1 != r2 && !cx_representable(ensemble, r1, r2) {
                                        Err(RunError::Overflow(r2))
                                    } else {
                                        assert(ensemble.subsystems@[a as int].1.wf());
                                        assert(ensemble.subsystems@[b as int].1.wf());
                                        ensemble.cx(r1, i1, r2, i2);
                                        proof {
                                            lemma_find_name(ensemble.subsystems@, r2);
                                            let f = find_name(ensemble.subsystems@, r2);
                                            if f != b {
                                                assert(ensemble.subsystems@[f] == old(ensemble).subsystems@[f]);
                                                assert(old(ensemble).subsystems@[b as int].0 == r2);
                                            }
                                            assert forall|k: int| 0 <= k < ensemble.subsystems@.len() implies (#[trigger] ensemble.subsystems@[k]).1.wf() by {
                                                if k != b {
                                                    assert(ensemble.subsystems@[k] == old(ensemble).subsystems@[k]);
                                                }
                                            }
                                        }
                                        Ok(())
                                    }
                                },
                            }
                        },
                        _ => Ok(()),
                    }
                } else {
                    Ok(())
                }
            },
            Some(g) => {
                if operands.len() >= 1 {
                    match operands[0] {
                        Operand::Qubit(reg, q) => {
                            proof { lemma_find_name(ensemble.subsystems@, reg); }
                            match ensemble.position(reg) {
                                None => Ok(()),
                                Some(i) => {
                                    if q >= ensemble.subsystems[i].1.num_qubits {
                                        Err(RunError::QubitOutOfRange(reg, q))
                                    } else if g == Gate::H && ensemble.subsystems[i].1.total_magnitude().is_none() {
                                        Err(RunError::Overflow(reg))
                                    } else {
                                        apply_gate(ensemble, g, reg, q);
                                        Ok(())
                                    }
                                },
                            }
                        },
                        Operand::Register(_) => Ok(()),
                    }
                } else {
                    Ok(())
                }
            },
        },
        Operation::Unsupported => Ok(()),
    }
}


/// True when running `ops` takes registers `es[i]` and classical registers
/// `cs[i]` to `es[i + 1]` and `cs[i + 1]`, each statement succeeding.
pub open spec fn run_trace(
    ops: Seq<Operation>,
    es: Seq<Ensemble>,
    cs: Seq<Seq<(char, Map<usize, usize>)>>,
) -> bool {
    &&& es.len() == ops.len() + 1
    &&& cs.len() == ops.len() + 1
    &&& es[0].subsystems@ == Seq::<(char, State)>::empty()
    &&& cs[0] == Seq::<(char, Map<usize, usize>)>::empty()
    &&& forall|i: int|
        0 <= i < ops.len() ==> #[trigger] operation_post(es[i], es[i + 1], cs[i], cs[i + 1], ops[i], Ok(()))
}

/// Runs a program from no registers. On success, returns the classical
/// registers in order of declaration; on failure, the error of the first
/// statement that failed.
pub fn execute_operations(operations: &Vec<Operation>) -> (r: Result<Vec<(char, BTreeMap<usize, usize>)>, RunError>)
    ensures
        match r {
            Ok(c) => exists|es: Seq<Ensemble>, cs: Seq<Seq<(char, Map<usize, usize>)>>|
                #[trigger] run_trace(operations@, es, cs) && cs.last() == classical_view(c@),
            Err(err) => exists|k: int, es: Seq<Ensemble>, cs: Seq<Seq<(char, Map<usize, usize>)>>|
                0 <= k < operations@.len() && #[trigger] run_trace(operations@.take(k), es, cs)
                    && operation_post(es.last(), es.last(), cs.last(), cs.last(), operations@[k], Err(err)),
        },
{
    let mut ensemble = init_ensemble();
    let mut classical: Vec<(char, BTreeMap<usize, usize>)> = Vec::new();
    let ghost mut es: Seq<Ensemble> = seq![ensemble];
    let ghost mut cs: Seq<Seq<(char, Map<usize, usize>)>> = seq![classical_view(classical@)];
    let mut i: usize = 0;
    proof {
        assert(classical_view(classical@) =~= Seq::<(char, Map<usize, usize>)>::empty());
        assert(operations@.take(0) =~= Seq::<Operation>::empty());
    }
    while i < operations.len()
        invariant
            i <= operations.len(),
            registers_ok(ensemble),
            run_trace(operations@.take(i as int), es, cs),
            es.last() == ensemble,
            cs.last() == classical_view(classical@),
        decreases operations.len() - i,
    {
        let ghost e0 = ensemble;
        let ghost c0 = classical_view(classical@);
        let step = apply_operation(&mut ensemble, &mut classical, &operations[i]);
        match step {
            Ok(()) => {
                proof {
                    let ops = operations@.take(i + 1);
                    let es1 = es.push(ensemble);
                    let cs1 = cs.push(classical_view(classical@));
                    assert forall|j: int| 0 <= j < ops.len() implies #[trigger] operation_post(es1[j], es1[j + 1], cs1[j], cs1[j + 1], ops[j], Ok(())) by {
                        if j < i {
                            assert(ops[j] == operations@.take(i as int)[j]);
                            assert(operation_post(es[j], es[j + 1], cs[j], cs[j + 1], operations@.take(i as int)[j], Ok(())));
                        } else {
                            assert(ops[j] == operations@[i as int]);
                        }
                    }
                    es = es1;
                    cs = cs1;
                }
                i += 1;
            },
            Err(err) => {
                proof {
                    assert(run_trace(operations@.take(i as int), es, cs)
                        && operation_post(es.last(), ensemble, cs.last(), classical_view(classical@), operations@[i as int], Err(err)));
                }
                return Err(err);
            },
        }
    }
    proof {
        assert(operations@.take(i as int) =~= operations@);
    }
    Ok(classical)
}

} // verus!
