use qcomp::driver::{simulate_qec, simulate_stabilizer, CodeChoice, StabGateOp};
use qcomp::tableau::{CliffordOperation, CodeKind, GeneratorSpec, PauliError, StabilizerTableau};
use qcomp::QError;

fn sop(op: CliffordOperation, target: usize, control: Option<usize>) -> StabGateOp {
    StabGateOp { op, target, control }
}

#[test]
fn bit_flip_qec_cycle() {
    let out = simulate_qec(
        CodeChoice::Preset(CodeKind::BitFlip),
        0,
        &vec![],
        &vec![(PauliError::X, 2)],
    ).unwrap();
    assert_eq!(out.initial_syndrome, vec![false, false, false]);
    // The unique nonzero pattern identifying qubit 2.
    assert_eq!(out.after_syndrome, vec![true, true, true]);
    assert!(out.has_error);
    assert_eq!(out.recovery, Some((PauliError::X, 2)));
    assert_eq!(out.recovery_syndrome, Some(vec![false, false, false]));
}

#[test]
fn bit_flip_distinguishes_each_qubit() {
    for q in 1..=3usize {
        let out = simulate_qec(
            CodeChoice::Preset(CodeKind::BitFlip),
            0,
            &vec![],
            &vec![(PauliError::X, q)],
        ).unwrap();
        assert_eq!(out.recovery, Some((PauliError::X, q)));
        assert_eq!(out.recovery_syndrome, Some(vec![false, false, false]));
    }
}

#[test]
fn steane_code_without_errors() {
    let out = simulate_qec(CodeChoice::Preset(CodeKind::Steane), 0, &vec![], &vec![]).unwrap();
    assert_eq!(out.initial_syndrome, vec![false; 7]);
    assert_eq!(out.after_syndrome, vec![false; 7]);
    assert_eq!(out.recovery, None);
    assert!(out.after_recovery.is_none());
    assert!(!out.has_error);
}

#[test]
fn steane_locates_an_x_error() {
    let out = simulate_qec(
        CodeChoice::Preset(CodeKind::Steane),
        0,
        &vec![],
        &vec![(PauliError::X, 5)],
    ).unwrap();
    assert_eq!(out.recovery, Some((PauliError::X, 5)));
    assert_eq!(out.recovery_syndrome, Some(vec![false; 7]));
}

#[test]
fn steane_locates_a_y_error() {
    let out = simulate_qec(
        CodeChoice::Preset(CodeKind::Steane),
        0,
        &vec![],
        &vec![(PauliError::Y, 3)],
    ).unwrap();
    assert_eq!(out.recovery, Some((PauliError::Y, 3)));
    assert_eq!(out.recovery_syndrome, Some(vec![false; 7]));
}

#[test]
fn phase_flip_locates_a_z_error() {
    let out = simulate_qec(
        CodeChoice::Preset(CodeKind::PhaseFlip),
        0,
        &vec![],
        &vec![(PauliError::Z, 1)],
    ).unwrap();
    assert_eq!(out.recovery, Some((PauliError::Z, 1)));
    assert_eq!(out.recovery_syndrome, Some(vec![false, false, false]));
}

#[test]
fn identity_error_is_a_noop() {
    let out = simulate_qec(
        CodeChoice::Preset(CodeKind::BitFlip),
        0,
        &vec![],
        &vec![(PauliError::I, 2)],
    ).unwrap();
    assert_eq!(out.after_syndrome, vec![false, false, false]);
    assert_eq!(out.recovery, None);
    assert!(!out.has_error);
}

#[test]
fn presets_satisfy_the_symplectic_invariant() {
    assert!(StabilizerTableau::identity(4).check_valid());
    assert!(StabilizerTableau::three_qubit_bit_flip().check_valid());
    assert!(StabilizerTableau::three_qubit_phase_flip().check_valid());
    assert!(StabilizerTableau::steane_code().check_valid());
}

#[test]
fn validity_survives_a_clifford_sequence() {
    let ops = vec![
        sop(CliffordOperation::HADAMARD, 1, None),
        sop(CliffordOperation::CNOT, 2, Some(1)),
        sop(CliffordOperation::PAULI_Y, 3, None),
        sop(CliffordOperation::SWAP, 3, Some(2)),
        sop(CliffordOperation::PAULI_Z, 1, None),
        sop(CliffordOperation::HADAMARD, 2, None),
    ];
    let steps = simulate_stabilizer(3, None, &ops).unwrap();
    assert_eq!(steps.len(), ops.len() + 1);
    for st in &steps {
        assert!(st.check_valid());
    }
}

#[test]
fn cnot_twice_restores_tableau() {
    let ops = vec![
        sop(CliffordOperation::CNOT, 2, Some(1)),
        sop(CliffordOperation::CNOT, 2, Some(1)),
    ];
    let steps = simulate_stabilizer(2, None, &ops).unwrap();
    assert_eq!(steps[0].get_x(), steps[2].get_x());
    assert_eq!(steps[0].get_z(), steps[2].get_z());
    assert_eq!(steps[0].get_r(), steps[2].get_r());
}

#[test]
fn swap_clifford_equals_three_cnots() {
    let one = simulate_stabilizer(3, None, &vec![sop(CliffordOperation::SWAP, 3, Some(1))]).unwrap();
    let three = simulate_stabilizer(3, None, &vec![
        sop(CliffordOperation::CNOT, 3, Some(1)),
        sop(CliffordOperation::CNOT, 1, Some(3)),
        sop(CliffordOperation::CNOT, 3, Some(1)),
    ]).unwrap();
    let a = one.last().unwrap();
    let b = three.last().unwrap();
    assert_eq!(a.get_x(), b.get_x());
    assert_eq!(a.get_z(), b.get_z());
    assert_eq!(a.get_r(), b.get_r());
}

#[test]
fn hadamard_swaps_x_and_z_bits() {
    let steps = simulate_stabilizer(1, None, &vec![sop(CliffordOperation::HADAMARD, 1, None)]).unwrap();
    let t = steps.last().unwrap();
    // The destabilizer X becomes Z and the stabilizer Z becomes X.
    assert_eq!(t.get_x()[0], vec![false]);
    assert_eq!(t.get_z()[0], vec![true]);
    assert_eq!(t.get_x()[1], vec![true]);
    assert_eq!(t.get_z()[1], vec![false]);
}

#[test]
fn custom_generators_fill_stabilizer_rows() {
    let gens = vec![
        GeneratorSpec { paulis: vec![PauliError::X, PauliError::X], phase: false },
        GeneratorSpec { paulis: vec![PauliError::Z, PauliError::Y], phase: true },
    ];
    let steps = simulate_stabilizer(2, Some(&gens), &vec![]).unwrap();
    let t = &steps[0];
    // Stabilizer rows are rows 2 and 3.
    assert_eq!(t.get_x()[2], vec![true, true]);
    assert_eq!(t.get_z()[2], vec![false, false]);
    assert_eq!(t.get_x()[3], vec![false, true]);
    assert_eq!(t.get_z()[3], vec![true, true]);
    assert_eq!(t.get_r()[2], false);
    assert_eq!(t.get_r()[3], true);
}

#[test]
fn zero_qubits_rejected() {
    assert_eq!(
        simulate_stabilizer(0, None, &vec![]).unwrap_err(),
        QError::InvalidCodeConfiguration
    );
}

#[test]
fn unknown_code_rejected() {
    assert_eq!(
        simulate_qec(CodeChoice::Unknown, 3, &vec![], &vec![]).unwrap_err(),
        QError::InvalidCodeConfiguration
    );
}

#[test]
fn error_on_missing_qubit_rejected() {
    assert_eq!(
        simulate_qec(
            CodeChoice::Preset(CodeKind::BitFlip),
            0,
            &vec![],
            &vec![(PauliError::X, 9)],
        ).unwrap_err(),
        QError::UnknownQubitReference
    );
}

#[test]
fn clifford_on_missing_qubit_rejected() {
    assert_eq!(
        simulate_stabilizer(2, None, &vec![sop(CliffordOperation::CNOT, 1, None)]).unwrap_err(),
        QError::UnknownQubitReference
    );
    assert_eq!(
        simulate_stabilizer(2, None, &vec![sop(CliffordOperation::HADAMARD, 3, None)]).unwrap_err(),
        QError::UnknownQubitReference
    );
    assert_eq!(
        simulate_stabilizer(2, None, &vec![sop(CliffordOperation::CNOT, 2, Some(2))]).unwrap_err(),
        QError::UnknownQubitReference
    );
}

#[test]
fn error_injection_flips_phases_only() {
    let mut t = StabilizerTableau::identity(1);
    let before_x = t.get_x().clone();
    let before_z = t.get_z().clone();
    assert_eq!(t.apply_error(PauliError::X, 1), Ok(()));
    // The stabilizer Z on qubit 1 anticommutes with X: its phase flips.
    assert_eq!(t.measure_syndrome(), vec![true]);
    assert_eq!(t.get_x(), &before_x);
    assert_eq!(t.get_z(), &before_z);
    // Injecting the same error again restores the phase.
    assert_eq!(t.apply_error(PauliError::X, 1), Ok(()));
    assert_eq!(t.measure_syndrome(), vec![false]);
}

#[test]
fn custom_tableau_has_no_decoder() {
    let mut t = StabilizerTableau::identity(2);
    assert_eq!(t.apply_error(PauliError::X, 1), Ok(()));
    assert_eq!(t.decode_syndrome(), None);
}
