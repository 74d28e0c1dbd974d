use vstd::prelude::*;
use vstd::arithmetic::power2::pow2;
use vstd::arithmetic::power2::lemma_pow2_adds;
use vstd::arithmetic::power2::lemma_pow2_pos;
use vstd::arithmetic::power2::lemma_pow2_strictly_increases;
use vstd::arithmetic::power2::lemma2_to64;
use crate::QError;
use crate::cx::{cxv_zero, cxv_one, cxv_mul, cx_abs_le, amp_bound, tensor_bound};
use crate::pure::{PureState, Unitary, StateV, UniV, all_bounded, apply_amps, lemma_apply_amps_bounded, lemma_all_bounded_mono,
    single_mat, cnot_mat, swap_mat, gen_identity, gen_hadamard, gen_pauli_x, gen_pauli_y, gen_pauli_z,
    gen_phase_s, gen_t};
use crate::tableau::{StabilizerTableau, TabV, CliffordOperation, PauliError, CodeKind, GeneratorSpec,
    clifford_ok, clifford_spec, opt_val, error_spec, syndrome_spec, decode_spec, identity_tab,
    with_generators_tab, gens_view, bit_flip_tab, phase_flip_tab, steane_tab, tab_wf, tab_valid, lemma_clifford_preserves_valid, lemma_error_preserves_valid};

verus! {

/// A gate name in a circuit request.  `Measurement` and `Unknown` are
/// accepted and treated as no-ops by policy: an unrecognized operation never
/// aborts a run.
#[derive(Clone, Copy, PartialEq, Eq, Structural, Debug)]
pub enum Gate {
    Identity,
    Hadamard,
    PauliX,
    PauliY,
    PauliZ,
    PhaseS,
    TGate,
    Cnot,
    Swap,
    Measurement,
    Unknown,
}

/// One circuit operation: a gate and its 1-indexed operand positions.  `q2`
/// is the target for CNOT (`q1` the control) and the second qubit for SWAP;
/// it is ignored by the one-qubit gates.  Position 0 marks an operand that
/// could not be resolved to a declared qubit.
#[derive(Clone, Copy, PartialEq, Eq, Structural, Debug)]
pub struct GateOp {
    pub gate: Gate,
    pub q1: usize,
    pub q2: usize,
}

pub open spec fn op_is_noop(g: Gate) -> bool {
    g == Gate::Measurement || g == Gate::Unknown
}

/// Whether the operand positions of `op` are valid for an `n`-qubit register.
pub open spec fn op_ok(op: GateOp, n: nat) -> bool {
    if op_is_noop(op.gate) {
        true
    } else if op.gate == Gate::Cnot || op.gate == Gate::Swap {
        1 <= op.q1 <= n && 1 <= op.q2 <= n && op.q1 != op.q2
    } else {
        1 <= op.q1 <= n
    }
}

/// The full matrix that one (non-no-op) operation builds.
pub open spec fn gate_mat(op: GateOp, n: nat) -> UniV {
    match op.gate {
        Gate::Identity => single_mat(gen_identity(), n, op.q1 as nat),
        Gate::Hadamard => single_mat(gen_hadamard(), n, op.q1 as nat),
        Gate::PauliX => single_mat(gen_pauli_x(), n, op.q1 as nat),
        Gate::PauliY => single_mat(gen_pauli_y(), n, op.q1 as nat),
        Gate::PauliZ => single_mat(gen_pauli_z(), n, op.q1 as nat),
        Gate::PhaseS => single_mat(gen_phase_s(), n, op.q1 as nat),
        Gate::TGate => single_mat(gen_t(), n, op.q1 as nat),
        Gate::Cnot => cnot_mat(n, op.q1 as nat, op.q2 as nat),
        Gate::Swap => swap_mat(n, op.q1 as nat, op.q2 as nat),
        Gate::Measurement => single_mat(gen_identity(), n, 1),
        Gate::Unknown => single_mat(gen_identity(), n, 1),
    }
}

/// The state after one operation: no-op gates leave it untouched, the rest
/// apply their matrix.
pub open spec fn step_state(s: StateV, op: GateOp, n: nat) -> StateV {
    if op_is_noop(op.gate) {
        s
    } else {
        StateV {
            amps: apply_amps(gate_mat(op, n).rows, s.amps),
            scale: s.scale + gate_mat(op, n).scale,
        }
    }
}

/// The state after the first `k` operations.
pub open spec fn run_upto(s: StateV, ops: Seq<GateOp>, n: nat, k: int) -> StateV
    decreases k,
{
    if k <= 0 { s } else { step_state(run_upto(s, ops, n, k - 1), ops[k - 1], n) }
}

/// The single-qubit basis state for a classical bit.
pub open spec fn basis_state(b: bool) -> StateV {
    StateV {
        amps: if b { seq![cxv_zero(), cxv_one()] } else { seq![cxv_one(), cxv_zero()] },
        scale: 0,
    }
}

/// The tensor product of two states: the left factor's qubits are the more
/// significant part of the basis index.
pub open spec fn tensor(a: StateV, b: StateV) -> StateV {
    StateV {
        amps: Seq::new(a.amps.len() * b.amps.len(), |i: int|
            cxv_mul(a.amps[i / (b.amps.len() as int)], b.amps[i % (b.amps.len() as int)])),
        scale: a.scale + b.scale,
    }
}

/// The register built from the declared classical bits, composed
/// left-to-right by tensor product.
pub open spec fn init_state(bits: Seq<bool>, k: int) -> StateV
    decreases k,
{
    if k <= 1 { basis_state(bits[0]) } else { tensor(init_state(bits, k - 1), basis_state(bits[k - 1])) }
}

/// What the circuit simulation returns, for every input: the register limit
/// is eight qubits (the operator matrix has 4^n entries) and 24 operations
/// (each H or T doubles the exact numerators' headroom).
pub open spec fn circuit_spec(bits: Seq<bool>, ops: Seq<GateOp>) -> Result<StateV, QError> {
    let n = bits.len() as nat;
    if n == 0 {
        Ok(StateV { amps: Seq::empty(), scale: 0 })
    } else if n > 8 || ops.len() > 24 {
        Err(QError::InvalidCodeConfiguration)
    } else if !(forall|k: int| 0 <= k < ops.len() ==> op_ok(#[trigger] ops[k], n)) {
        Err(QError::UnknownQubitReference)
    } else {
        Ok(run_upto(init_state(bits, bits.len() as int), ops, n, ops.len() as int))
    }
}

/// Runs a circuit: builds the register from the declared bits, then applies
/// each operation in order through the unitary builder.  Returns the final
/// state with its exact amplitudes, or the error that `circuit_spec` fixes:
/// `InvalidCodeConfiguration` past the capacity limits and
/// `UnknownQubitReference` when an operation names a position outside the
/// register (0 marks an undeclared identifier).
pub fn simulate_circuit(bits: &Vec<bool>, ops: &Vec<GateOp>) -> (res: Result<PureState, QError>)
    ensures
        res matches Ok(s) ==> circuit_spec(bits@, ops@) matches Ok(sv) && s@ == sv,
        res matches Err(e) ==> circuit_spec(bits@, ops@) == Err::<StateV, QError>(e),
{
    let n = bits.len();
    if n == 0 {
        return Ok(PureState::empty());
    }
    if n > 8 || ops.len() > 24 {
        return Err(QError::InvalidCodeConfiguration);
    }
    let mut k: usize = 0;
    while k < ops.len()
        invariant
            n == bits@.len(), 1 <= n <= 8, ops@.len() <= 24,
            k <= ops@.len(),
            forall|kk: int| 0 <= kk < k ==> op_ok(#[trigger] ops@[kk], n as nat),
        decreases ops@.len() - k,
    {
        let op = ops[k];
        let ok = match op.gate {
            Gate::Measurement | Gate::Unknown => true,
            Gate::Cnot | Gate::Swap =>
                1 <= op.q1 && op.q1 <= n && 1 <= op.q2 && op.q2 <= n && op.q1 != op.q2,
            _ => 1 <= op.q1 && op.q1 <= n,
        };
        if !ok {
            proof {
                assert(!op_ok(ops@[k as int], n as nat));
            }
            return Err(QError::UnknownQubitReference);
        }
        k += 1;
    }
    // Build the initial register.
    let mut st = if bits[0] { PureState::qubit1() } else { PureState::qubit0() };
    proof {
        assert(st@ == init_state(bits@, 1));
        assert(st@.amps.len() == pow2(1)) by { lemma2_to64(); }
        assert(forall|i: int| 0 <= i < st@.amps.len() ==>
            #[trigger] st@.amps[i] == cxv_zero() || st@.amps[i] == cxv_one());
    }
    let mut i: usize = 1;
    while i < n
        invariant
            n == bits@.len(), 1 <= n <= 8, 1 <= i <= n,
            st@ == init_state(bits@, i as int),
            st@.amps.len() == pow2(i as nat),
            st@.scale == 0,
            forall|q: int| 0 <= q < st@.amps.len() ==>
                #[trigger] st@.amps[q] == cxv_zero() || st@.amps[q] == cxv_one(),
        decreases n - i,
    {
        let b = if bits[i] { PureState::qubit1() } else { PureState::qubit0() };
        proof {
            assert(b@ == basis_state(bits@[i as int]));
            assert(pow2(i as nat) * 2 <= 0x10000) by {
                lemma_pow2_adds(i as nat, 1);
                lemma2_to64();
                if i + 1 < 16 {
                    lemma_pow2_strictly_increases((i + 1) as nat, 16);
                }
            }
            assert(all_bounded(st@.amps, tensor_bound()));
            assert(all_bounded(b@.amps, tensor_bound()));
        }
        let st2 = st.product(&b);
        proof {
            assert(st2@.amps =~= tensor(st@, b@).amps);
            assert(st2@ == tensor(st@, b@));
            assert(st2@ == init_state(bits@, i as int + 1));
            lemma_pow2_adds(i as nat, 1);
            lemma2_to64();
            assert(st2@.amps.len() == pow2((i + 1) as nat));
            assert forall|q: int| 0 <= q < st2@.amps.len() implies
                #[trigger] st2@.amps[q] == cxv_zero() || st2@.amps[q] == cxv_one() by {
                let lo = b@.amps.len() as int;
                let a1 = st@.amps[q / lo];
                let a2 = b@.amps[q % lo];
                crate::cx::lemma_mul_zero(a2);
                assert(cxv_mul(cxv_one(), a2) == a2);
                if a1 == cxv_zero() {
                    assert(st2@.amps[q] == cxv_zero());
                } else {
                    assert(st2@.amps[q] == a2);
                }
            }
        }
        st = st2;
        i += 1;
    }
    let ghost init = init_state(bits@, bits@.len() as int);
    proof {
        assert forall|q: int| 0 <= q < st@.amps.len() implies cx_abs_le(#[trigger] st@.amps[q], 1) by {
            assert(st@.amps[q] == cxv_zero() || st@.amps[q] == cxv_one());
        }
        assert(pow2(0) == 1) by { lemma2_to64(); }
        assert(all_bounded(st@.amps, pow2(0) as int));
    }
    // Apply the operations in order.
    let mut g: usize = 0;
    while g < ops.len()
        invariant
            n == bits@.len(), 1 <= n <= 8, ops@.len() <= 24,
            forall|kk: int| 0 <= kk < ops@.len() ==> op_ok(#[trigger] ops@[kk], n as nat),
            init == init_state(bits@, bits@.len() as int),
            g <= ops@.len(),
            st@ == run_upto(init, ops@, n as nat, g as int),
            st@.amps.len() == pow2(n as nat),
            st@.scale <= g,
            all_bounded(st@.amps, pow2(4 * g as nat) as int),
        decreases ops@.len() - g,
    {
        let op = ops[g];
        proof {
            assert(op_ok(ops@[g as int], n as nat));
            lemma_pow2_pos(4 * g as nat);
            assert(pow2(4 * g as nat) <= pow2(96)) by {
                if 4 * g < 96 {
                    lemma_pow2_strictly_increases(4 * g as nat, 96);
                }
            }
            assert(pow2(96) < pow2(100)) by { lemma_pow2_strictly_increases(96, 100); }
            assert(pow2(100) == amp_bound()) by {
                lemma_pow2_adds(64, 36);
                lemma2_to64();
                vstd::arithmetic::power2::lemma2_to64_rest();
            }
        }
        let built: Option<Unitary> = match op.gate {
            Gate::Identity => Some(Unitary::identity(n, op.q1)),
            Gate::Hadamard => Some(Unitary::hadamard(n, op.q1)),
            Gate::PauliX => Some(Unitary::pauli_x(n, op.q1)),
            Gate::PauliY => Some(Unitary::pauli_y(n, op.q1)),
            Gate::PauliZ => Some(Unitary::pauli_z(n, op.q1)),
            Gate::PhaseS => Some(Unitary::phase_s(n, op.q1)),
            Gate::TGate => Some(Unitary::t_gate(n, op.q1)),
            Gate::Cnot => Some(Unitary::cnot(n, op.q1, op.q2)),
            Gate::Swap => Some(Unitary::swap(n, op.q1, op.q2)),
            Gate::Measurement | Gate::Unknown => None,
        };
        match built {
            Some(u) => {
                proof {
                    assert(u@ == gate_mat(ops@[g as int], n as nat));
                    assert(all_bounded(st@.amps, amp_bound()));
                    lemma_apply_amps_bounded(u@, st@.amps, pow2(4 * g as nat) as int);
                    assert(12 * pow2(4 * g as nat) <= pow2(4 * (g + 1) as nat)) by {
                        lemma_pow2_adds(4 * g as nat, 4);
                        lemma2_to64();
                    }
                }
                let r = st.apply(u);
                match r {
                    Ok(()) => {
                        proof {
                            assert(st@ == step_state(run_upto(init, ops@, n as nat, g as int), ops@[g as int], n as nat));
                            lemma_all_bounded_mono(st@.amps, 12 * pow2(4 * g as nat) as int, pow2(4 * (g + 1) as nat) as int);
                        }
                    },
                    Err(e) => {
                        proof { assert(false); }
                        return Err(e);
                    },
                }
            },
            None => {
                proof {
                    assert(step_state(run_upto(init, ops@, n as nat, g as int), ops@[g as int], n as nat)
                        == run_upto(init, ops@, n as nat, g as int));
                    assert(pow2(4 * g as nat) <= pow2(4 * (g + 1) as nat)) by {
                        lemma_pow2_strictly_increases(4 * g as nat, 4 * (g + 1) as nat);
                    }
                    lemma_all_bounded_mono(st@.amps, pow2(4 * g as nat) as int, pow2(4 * (g + 1) as nat) as int);
                }
            },
        }
        g += 1;
    }
    Ok(st)
}


/// One operation of a stabilizer request: a Clifford gate, its 1-indexed
/// target, and the control for the two-qubit gates.
#[derive(Clone, Copy, PartialEq, Eq, Structural, Debug)]
pub struct StabGateOp {
    pub op: CliffordOperation,
    pub target: usize,
    pub control: Option<usize>,
}

pub open spec fn stab_op_ok(o: StabGateOp, n: nat) -> bool {
    clifford_ok(n, o.op, o.target as int, opt_val(o.control))
}

/// The tableau after the first `k` operations.
pub open spec fn stab_run(t: TabV, ops: Seq<StabGateOp>, k: int) -> TabV
    decreases k,
{
    if k <= 0 {
        t
    } else {
        clifford_spec(stab_run(t, ops, k - 1), ops[k - 1].op, ops[k - 1].target as int, opt_val(ops[k - 1].control))
    }
}

/// The initial tableau of a stabilizer request: fresh, or overwritten by the
/// caller's generators.
pub open spec fn stab_init(n: nat, gens: Option<Seq<(Seq<PauliError>, bool)>>) -> TabV {
    match gens {
        None => identity_tab(n),
        Some(g) => with_generators_tab(n, g),
    }
}

pub open spec fn gens_opt_view(gens: Option<&Vec<GeneratorSpec>>) -> Option<Seq<(Seq<PauliError>, bool)>> {
    match gens {
        None => None,
        Some(g) => Some(gens_view(g@)),
    }
}

/// Runs a stabilizer simulation: builds the initial tableau, applies each
/// Clifford operation in order, and returns the evolution trace — the
/// tableau before any operation and after each one.  A qubit count of zero
/// (or past capacity) is `InvalidCodeConfiguration`; an operation with a
/// position outside `1..=n`, a missing control, or control equal to target
/// is `UnknownQubitReference`.
pub fn simulate_stabilizer(n: usize, gens: Option<&Vec<GeneratorSpec>>, ops: &Vec<StabGateOp>) -> (res: Result<Vec<StabilizerTableau>, QError>)
    ensures
        res matches Err(e) ==> (e == QError::InvalidCodeConfiguration && !(1 <= n <= 0x10000))
            || (e == QError::UnknownQubitReference && 1 <= n <= 0x10000
                && !(forall|k: int| 0 <= k < ops@.len() ==> stab_op_ok(#[trigger] ops@[k], n as nat))),
        res matches Ok(steps) ==> {
            &&& 1 <= n <= 0x10000
            &&& forall|k: int| 0 <= k < ops@.len() ==> stab_op_ok(#[trigger] ops@[k], n as nat)
            &&& steps@.len() == ops@.len() + 1
            &&& forall|k: int| 0 <= k <= ops@.len() ==>
                (#[trigger] steps@[k])@ == stab_run(stab_init(n as nat, gens_opt_view(gens)), ops@, k)
        },
{
    if n < 1 || n > 0x10000 {
        return Err(QError::InvalidCodeConfiguration);
    }
    let mut k: usize = 0;
    while k < ops.len()
        invariant
            1 <= n <= 0x10000,
            k <= ops@.len(),
            forall|kk: int| 0 <= kk < k ==> stab_op_ok(#[trigger] ops@[kk], n as nat),
        decreases ops@.len() - k,
    {
        let o = ops[k];
        let ok = match o.op {
            CliffordOperation::CNOT | CliffordOperation::SWAP => match o.control {
                Some(c) => 1 <= o.target && o.target <= n && 1 <= c && c <= n && c != o.target,
                None => false,
            },
            _ => 1 <= o.target && o.target <= n,
        };
        if !ok {
            proof { assert(!stab_op_ok(ops@[k as int], n as nat)); }
            return Err(QError::UnknownQubitReference);
        }
        k += 1;
    }
    let mut tab = match gens {
        None => StabilizerTableau::identity(n),
        Some(g) => StabilizerTableau::with_generators(n, g),
    };
    let ghost t0 = tab@;
    let mut steps: Vec<StabilizerTableau> = Vec::new();
    steps.push(tab.snapshot());
    let mut g: usize = 0;
    while g < ops.len()
        invariant
            1 <= n <= 0x10000,
            forall|kk: int| 0 <= kk < ops@.len() ==> stab_op_ok(#[trigger] ops@[kk], n as nat),
            t0 == stab_init(n as nat, gens_opt_view(gens)),
            g <= ops@.len(),
            tab.wf(), tab@.n == n,
            tab@ == stab_run(t0, ops@, g as int),
            steps@.len() == g + 1,
            forall|kk: int| 0 <= kk <= g ==> (#[trigger] steps@[kk])@ == stab_run(t0, ops@, kk),
        decreases ops@.len() - g,
    {
        let o = ops[g];
        let r = tab.apply_clifford(o.op, o.target, o.control);
        match r {
            Ok(()) => {},
            Err(e) => {
                proof { assert(false); }
                return Err(e);
            },
        }
        steps.push(tab.snapshot());
        g += 1;
    }
    Ok(steps)
}

/// How a QEC request chooses its initial tableau: a named preset, a name
/// that matched no preset, or a custom qubit count with generators.
#[derive(Clone, Copy, PartialEq, Eq, Structural, Debug)]
pub enum CodeChoice {
    Preset(CodeKind),
    Unknown,
    Custom,
}

/// The initial tableau of a QEC request, or why there is none.
pub open spec fn qec_init(choice: CodeChoice, n: nat, gens: Seq<(Seq<PauliError>, bool)>) -> Result<TabV, QError> {
    match choice {
        CodeChoice::Preset(CodeKind::BitFlip) => Ok(bit_flip_tab()),
        CodeChoice::Preset(CodeKind::PhaseFlip) => Ok(phase_flip_tab()),
        CodeChoice::Preset(CodeKind::Steane) => Ok(steane_tab()),
        CodeChoice::Unknown => Err(QError::InvalidCodeConfiguration),
        CodeChoice::Custom => if 1 <= n <= 0x10000 {
            Ok(with_generators_tab(n, gens))
        } else {
            Err(QError::InvalidCodeConfiguration)
        },
    }
}

/// The tableau after the first `k` injected errors.
pub open spec fn err_run(t: TabV, errs: Seq<(PauliError, usize)>, k: int) -> TabV
    decreases k,
{
    if k <= 0 { t } else { error_spec(err_run(t, errs, k - 1), errs[k - 1].0, errs[k - 1].1 - 1) }
}

pub open spec fn any_set(s: Seq<bool>) -> bool {
    exists|k: int| 0 <= k < s.len() && s[k]
}

/// Everything a QEC run reports.
#[derive(Debug)]
pub struct QecOutcome {
    /// The chosen code's tableau and its syndrome before any error.
    pub initial: StabilizerTableau,
    pub initial_syndrome: Vec<bool>,
    /// The tableau and syndrome after all injected errors.
    pub after_errors: StabilizerTableau,
    pub after_syndrome: Vec<bool>,
    /// The decoder's recommended recovery, if any.
    pub recovery: Option<(PauliError, usize)>,
    /// The tableau and syndrome after applying the recovery, when there is one.
    pub after_recovery: Option<StabilizerTableau>,
    pub recovery_syndrome: Option<Vec<bool>>,
    /// Whether any syndrome bit was set after the errors.
    pub has_error: bool,
}

/// Runs a quantum error-correction cycle: builds the chosen code's tableau,
/// injects the Pauli errors in order, measures the syndrome before and
/// after, decodes it, and applies the recommended recovery.  An unknown
/// code name or invalid custom qubit count is `InvalidCodeConfiguration`;
/// an error on a position outside `1..=n` is `UnknownQubitReference`.
pub fn simulate_qec(choice: CodeChoice, n: usize, gens: &Vec<GeneratorSpec>, errors: &Vec<(PauliError, usize)>) -> (res: Result<QecOutcome, QError>)
    ensures
        res matches Err(e) ==> qec_init(choice, n as nat, gens_view(gens@)) == Err::<TabV, QError>(e)
            || (e == QError::UnknownQubitReference
                && (qec_init(choice, n as nat, gens_view(gens@)) matches Ok(t0)
                    && !(forall|k: int| 0 <= k < errors@.len() ==> 1 <= (#[trigger] errors@[k]).1 <= t0.n))),
        res matches Ok(out) ==> qec_init(choice, n as nat, gens_view(gens@)) matches Ok(t0) && {
            let after = err_run(t0, errors@, errors@.len() as int);
            &&& (forall|k: int| 0 <= k < errors@.len() ==> 1 <= (#[trigger] errors@[k]).1 <= t0.n)
            &&& out.initial@ == t0
            &&& out.initial_syndrome@ == syndrome_spec(t0)
            &&& out.after_errors@ == after
            &&& out.after_syndrome@ == syndrome_spec(after)
            &&& out.recovery == decode_spec(after)
            &&& match decode_spec(after) {
                None => out.after_recovery is None && out.recovery_syndrome is None,
                Some((p, q)) => (out.after_recovery matches Some(tr) && tr@ == error_spec(after, p, q - 1))
                    && (out.recovery_syndrome matches Some(sy) && sy@ == syndrome_spec(error_spec(after, p, q - 1))),
            }
            &&& out.has_error == any_set(syndrome_spec(after))
        },
{
    let tab0 = match choice {
        CodeChoice::Preset(CodeKind::BitFlip) => StabilizerTableau::three_qubit_bit_flip(),
        CodeChoice::Preset(CodeKind::PhaseFlip) => StabilizerTableau::three_qubit_phase_flip(),
        CodeChoice::Preset(CodeKind::Steane) => StabilizerTableau::steane_code(),
        CodeChoice::Unknown => { return Err(QError::InvalidCodeConfiguration); },
        CodeChoice::Custom => {
            if n < 1 || n > 0x10000 {
                return Err(QError::InvalidCodeConfiguration);
            }
            StabilizerTableau::with_generators(n, gens)
        },
    };
    let ghost t0 = tab0@;
    let nn = tab0.get_n();
    let mut k: usize = 0;
    while k < errors.len()
        invariant
            tab0.wf(), t0 == tab0@, nn == t0.n,
            qec_init(choice, n as nat, gens_view(gens@)) == Ok::<TabV, QError>(t0),
            k <= errors@.len(),
            forall|kk: int| 0 <= kk < k ==> 1 <= (#[trigger] errors@[kk]).1 <= t0.n,
        decreases errors@.len() - k,
    {
        let (_, q) = errors[k];
        if q < 1 || q > nn {
            proof { assert(!(1 <= errors@[k as int].1 <= t0.n)); }
            return Err(QError::UnknownQubitReference);
        }
        k += 1;
    }
    let initial_syndrome = tab0.measure_syndrome();
    let initial = tab0.snapshot();
    let mut tab = tab0;
    let mut g: usize = 0;
    while g < errors.len()
        invariant
            forall|kk: int| 0 <= kk < errors@.len() ==> 1 <= (#[trigger] errors@[kk]).1 <= t0.n,
            g <= errors@.len(),
            tab.wf(), tab@.n == t0.n,
            tab@ == err_run(t0, errors@, g as int),
        decreases errors@.len() - g,
    {
        let (p, q) = errors[g];
        let r = tab.apply_error(p, q);
        match r {
            Ok(()) => {},
            Err(e) => {
                proof { assert(false); }
                return Err(e);
            },
        }
        g += 1;
    }
    let ghost after = tab@;
    let after_syndrome = tab.measure_syndrome();
    let after_errors = tab.snapshot();
    let mut has_error = false;
    let mut h: usize = 0;
    while h < after_syndrome.len()
        invariant
            after_syndrome@ == syndrome_spec(after),
            h <= after_syndrome@.len(),
            has_error == exists|kk: int| 0 <= kk < h && after_syndrome@[kk],
        decreases after_syndrome@.len() - h,
    {
        if after_syndrome[h] {
            has_error = true;
        }
        h += 1;
    }
    let recovery = tab.decode_syndrome();
    let (after_recovery, recovery_syndrome) = match recovery {
        None => (None, None),
        Some((p, q)) => {
            let r = tab.apply_error(p, q);
            match r {
                Ok(()) => {},
                Err(e) => {
                    proof { assert(false); }
                    return Err(e);
                },
            }
            let sy = tab.measure_syndrome();
            (Some(tab.snapshot()), Some(sy))
        },
    };
    proof {
        assert(has_error == any_set(syndrome_spec(after)));
    }
    Ok(QecOutcome {
        initial,
        initial_syndrome,
        after_errors,
        after_syndrome,
        recovery,
        after_recovery,
        recovery_syndrome,
        has_error,
    })
}


/// After any sequence of Clifford operations, the symplectic commutation
/// invariant among the 2n generators still holds.
pub proof fn lemma_stab_run_preserves_valid(t: TabV, ops: Seq<StabGateOp>, k: int)
    requires
        tab_wf(t), tab_valid(t), 0 <= k <= ops.len(),
        forall|kk: int| 0 <= kk < ops.len() ==> stab_op_ok(#[trigger] ops[kk], t.n),
    ensures
        tab_wf(stab_run(t, ops, k)),
        tab_valid(stab_run(t, ops, k)),
        stab_run(t, ops, k).n == t.n,
    decreases k,
{
    if k > 0 {
        lemma_stab_run_preserves_valid(t, ops, k - 1);
        lemma_clifford_preserves_valid(stab_run(t, ops, k - 1), ops[k - 1].op, ops[k - 1].target as int, opt_val(ops[k - 1].control));
    }
}

/// Injected Pauli errors only flip phases, so any sequence of them also
/// preserves the symplectic commutation invariant.
pub proof fn lemma_err_run_preserves_valid(t: TabV, errs: Seq<(PauliError, usize)>, k: int)
    requires tab_wf(t), tab_valid(t), 0 <= k <= errs.len(),
    ensures
        tab_wf(err_run(t, errs, k)),
        tab_valid(err_run(t, errs, k)),
        err_run(t, errs, k).n == t.n,
    decreases k,
{
    if k > 0 {
        lemma_err_run_preserves_valid(t, errs, k - 1);
        lemma_error_preserves_valid(err_run(t, errs, k - 1), errs[k - 1].0, errs[k - 1].1 - 1);
    }
}

} // verus!
