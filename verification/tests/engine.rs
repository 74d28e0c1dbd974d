use qcomp::cx::Cx;
use qcomp::driver::{simulate_circuit, Gate, GateOp};
use qcomp::pure::{PureState, Unitary};
use qcomp::QError;

fn op1(gate: Gate, q1: usize) -> GateOp {
    GateOp { gate, q1, q2: 0 }
}

fn op2(gate: Gate, q1: usize, q2: usize) -> GateOp {
    GateOp { gate, q1, q2 }
}

/// The real value of one amplitude component pair a + b*sqrt(2).
fn quad(a: i128, b: i128) -> f64 {
    a as f64 + b as f64 * std::f64::consts::SQRT_2
}

/// |amplitude|^2 / 2^scale for one exact amplitude.
fn probability(c: &Cx, scale: usize) -> f64 {
    let re = quad(c.ra, c.rb);
    let im = quad(c.ia, c.ib);
    (re * re + im * im) / 2f64.powi(scale as i32)
}

fn probabilities(s: &PureState) -> Vec<f64> {
    let scale = s.get_scale();
    s.get_amplitudes().iter().map(|c| probability(c, scale)).collect()
}

#[test]
fn bell_state_probabilities() {
    let bits = vec![false, false];
    let ops = vec![op1(Gate::Hadamard, 1), op2(Gate::Cnot, 1, 2)];
    let s = simulate_circuit(&bits, &ops).unwrap();
    let p = probabilities(&s);
    let expected = [0.5, 0.0, 0.0, 0.5];
    assert_eq!(p.len(), 4);
    for k in 0..4 {
        assert!((p[k] - expected[k]).abs() < 1e-9);
    }
}

#[test]
fn unitarity_after_every_step() {
    let bits = vec![true, false, false];
    let ops = vec![
        op1(Gate::Hadamard, 1),
        op1(Gate::TGate, 2),
        op2(Gate::Cnot, 1, 3),
        op1(Gate::PhaseS, 3),
        op1(Gate::PauliY, 2),
        op2(Gate::Swap, 2, 3),
        op1(Gate::Hadamard, 3),
        op1(Gate::PauliZ, 1),
    ];
    for steps in 0..=ops.len() {
        let prefix: Vec<GateOp> = ops[..steps].to_vec();
        let s = simulate_circuit(&bits, &prefix).unwrap();
        let total: f64 = probabilities(&s).iter().sum();
        assert!((total - 1.0).abs() < 1e-9);
    }
}

#[test]
fn hadamard_twice_restores_state() {
    let bits = vec![true, false];
    let once = simulate_circuit(&bits, &vec![op1(Gate::Hadamard, 1)]).unwrap();
    let twice = simulate_circuit(&bits, &vec![op1(Gate::Hadamard, 1), op1(Gate::Hadamard, 1)]).unwrap();
    let original = simulate_circuit(&bits, &vec![]).unwrap();
    // Applying H once moves away from the original state, twice restores it.
    assert_ne!(probabilities(&once), probabilities(&original));
    let a = probabilities(&twice);
    let b = probabilities(&original);
    for k in 0..a.len() {
        assert!((a[k] - b[k]).abs() < 1e-9);
    }
    // Exactly: numerators doubled, denominator sqrt(2)^2 = 2.
    assert_eq!(twice.get_scale(), 2);
    let o = original.get_amplitudes();
    let t = twice.get_amplitudes();
    for k in 0..o.len() {
        assert_eq!(t[k].ra, 2 * o[k].ra);
        assert_eq!(t[k].ia, 2 * o[k].ia);
    }
}

#[test]
fn cnot_twice_restores_state() {
    let bits = vec![true, true];
    let twice = simulate_circuit(&bits, &vec![op2(Gate::Cnot, 1, 2), op2(Gate::Cnot, 1, 2)]).unwrap();
    let original = simulate_circuit(&bits, &vec![]).unwrap();
    assert_eq!(twice.get_scale(), original.get_scale());
    assert_eq!(twice.get_amplitudes(), original.get_amplitudes());
}

#[test]
fn swap_equals_three_cnots() {
    let bits = vec![true, false];
    let swapped = simulate_circuit(&bits, &vec![op2(Gate::Swap, 1, 2)]).unwrap();
    let chained = simulate_circuit(
        &bits,
        &vec![op2(Gate::Cnot, 1, 2), op2(Gate::Cnot, 2, 1), op2(Gate::Cnot, 1, 2)],
    ).unwrap();
    assert_eq!(swapped.get_scale(), chained.get_scale());
    assert_eq!(swapped.get_amplitudes(), chained.get_amplitudes());
    // Direct index exchange of the basis state |10> -> |01>.
    let a = swapped.get_amplitudes();
    assert_eq!(a[1].ra, 1);
    for (k, c) in a.iter().enumerate() {
        if k != 1 {
            assert_eq!((c.ra, c.rb, c.ia, c.ib), (0, 0, 0, 0));
        }
    }
}

#[test]
fn swap_non_adjacent_qubits() {
    let bits = vec![true, false, false];
    let s = simulate_circuit(&bits, &vec![op2(Gate::Swap, 1, 3)]).unwrap();
    // |100> (index 4) becomes |001> (index 1).
    let a = s.get_amplitudes();
    assert_eq!(a[1].ra, 1);
    assert_eq!(a[4].ra, 0);
}

#[test]
fn cnot_non_adjacent_qubits() {
    let bits = vec![true, false, false];
    let s = simulate_circuit(&bits, &vec![op2(Gate::Cnot, 1, 3)]).unwrap();
    // Control is qubit 1 (set), target qubit 3: |100> -> |101> (index 5).
    let a = s.get_amplitudes();
    assert_eq!(a[5].ra, 1);
    assert_eq!(a[4].ra, 0);
}

#[test]
fn dimension_mismatch_reported() {
    let mut s = PureState::qubit0();
    let u = Unitary::hadamard(2, 1);
    assert_eq!(s.apply(u), Err(QError::DimensionMismatch));
}

#[test]
fn unknown_qubit_reference_in_circuit() {
    let bits = vec![false, false];
    let ops = vec![op1(Gate::Hadamard, 0)];
    assert_eq!(simulate_circuit(&bits, &ops).unwrap_err(), QError::UnknownQubitReference);
    let ops = vec![op1(Gate::PauliX, 3)];
    assert_eq!(simulate_circuit(&bits, &ops).unwrap_err(), QError::UnknownQubitReference);
    let ops = vec![op2(Gate::Cnot, 1, 1)];
    assert_eq!(simulate_circuit(&bits, &ops).unwrap_err(), QError::UnknownQubitReference);
}

#[test]
fn zero_qubits_give_empty_result() {
    let s = simulate_circuit(&vec![], &vec![op1(Gate::Hadamard, 1)]).unwrap();
    assert_eq!(s.get_amplitudes().len(), 0);
}

#[test]
fn unknown_gate_is_a_noop() {
    let bits = vec![true];
    let s = simulate_circuit(&bits, &vec![op1(Gate::Unknown, 0), op1(Gate::Measurement, 1)]).unwrap();
    let original = simulate_circuit(&bits, &vec![]).unwrap();
    assert_eq!(s.get_amplitudes(), original.get_amplitudes());
    assert_eq!(s.get_scale(), original.get_scale());
}

#[test]
fn capacity_limits_are_reported() {
    let bits = vec![false; 9];
    assert_eq!(
        simulate_circuit(&bits, &vec![]).unwrap_err(),
        QError::InvalidCodeConfiguration
    );
    let ops = vec![op1(Gate::PauliX, 1); 25];
    assert_eq!(
        simulate_circuit(&vec![false], &ops).unwrap_err(),
        QError::InvalidCodeConfiguration
    );
}

#[test]
fn hadamard_matrix_entries() {
    let u = Unitary::hadamard(1, 1);
    assert_eq!(u.get_dim(), 2);
    assert_eq!(u.get_scale(), 1);
    let m = u.matrix();
    assert_eq!((m[0][0].ra, m[0][1].ra, m[1][0].ra, m[1][1].ra), (1, 1, 1, -1));
}

#[test]
fn cnot_matrix_is_a_permutation() {
    let u = Unitary::cnot(2, 1, 2);
    let m = u.matrix();
    // Basis order |00>, |01>, |10>, |11>: the last two rows swap.
    let expected = [[1, 0, 0, 0], [0, 1, 0, 0], [0, 0, 0, 1], [0, 0, 1, 0]];
    for i in 0..4 {
        for j in 0..4 {
            assert_eq!(m[i][j].ra, expected[i][j]);
            assert_eq!(m[i][j].ia, 0);
        }
    }
}

#[test]
fn phase_and_t_gates_preserve_unitarity() {
    let bits = vec![true];
    let ops = vec![op1(Gate::TGate, 1), op1(Gate::PhaseS, 1), op1(Gate::TGate, 1), op1(Gate::Hadamard, 1)];
    let s = simulate_circuit(&bits, &ops).unwrap();
    let total: f64 = probabilities(&s).iter().sum();
    assert!((total - 1.0).abs() < 1e-9);
}

#[test]
fn identity_gate_leaves_state_alone() {
    let mut s = PureState::qubit1();
    let u = Unitary::identity(1, 1);
    assert_eq!(s.apply(u), Ok(()));
    assert_eq!(s.get_amplitudes()[1].ra, 1);
    assert_eq!(s.get_amplitudes()[0].ra, 0);
}

#[test]
fn tensor_product_orders_qubits() {
    let a = PureState::qubit1();
    let b = PureState::qubit0();
    let t = a.product(&b);
    // |1> tensor |0> = |10>, index 2.
    let amps = t.get_amplitudes();
    assert_eq!(amps.len(), 4);
    assert_eq!(amps[2].ra, 1);
    for (k, c) in amps.iter().enumerate() {
        if k != 2 {
            assert_eq!(c.ra, 0);
        }
    }
}
