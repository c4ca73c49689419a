use quantum_sim::circuit::QuantumCircuit;
use quantum_sim::gate::QuantumGate;
use quantum_sim::matrix::SparseMatrix;
use quantum_sim::qubit::Qubit;
use quantum_sim::register::QuantumRegister;
use quantum_sim::scalar::Cx;
use quantum_sim::scalar::CX_MAX;
use quantum_sim::scalar::SCALE;
use quantum_sim::scalar::TOL;
use quantum_sim::shor::ShorsAlgo;
use quantum_sim::QError;

fn small_matrix() -> SparseMatrix {
    // [[0.5 + 0.25 i, 0], [0.125, -0.75 i]]
    let rows = vec![
        vec![(0usize, Cx::new(SCALE / 2, SCALE / 4))],
        vec![(0usize, Cx::new(SCALE / 8, 0)), (1usize, Cx::new(0, -3 * SCALE / 4))],
    ];
    SparseMatrix::new(2, rows).unwrap()
}

#[test]
fn law_scalar_multiply_round_trip() {
    // (A c) c^-1 recovers A within tolerance, for a nonzero scalar
    let a = small_matrix();
    let c = Cx::new(SCALE / 2, SCALE / 3);
    let c_inv = c.inv().unwrap();
    let scaled = a.scalar_multiply(c).unwrap();
    let back = scaled.scalar_multiply(c_inv).unwrap();
    assert!(back.almost_equals(&a));

    // an exactly unimodular scalar recovers A exactly
    let u = Cx::new(0, SCALE);
    let scaled = a.scalar_multiply(u).unwrap();
    let back = scaled.scalar_multiply(u.conj()).unwrap();
    assert!(back.almost_equals(&a));
    for i in 0..2usize {
        for j in 0..2usize {
            assert_eq!(back.get(i, j), a.get(i, j));
        }
    }
}

#[test]
fn law_reverse_apply_round_trip() {
    // G.reverse() applied after G restores the register, for unitary G
    let h = QuantumGate::hadamard();
    let q = Qubit::new_normalize(Cx::new(SCALE, 0), Cx::new(SCALE / 3, SCALE / 5)).unwrap();
    let reg = QuantumRegister::singleton(q);
    let forward = h.apply(&reg).unwrap();
    let back = h.reverse().apply(&forward).unwrap();
    assert!(back.almost_equals(&reg));

    let cnot = QuantumGate::cnot();
    let two = reg.tensor_product(&QuantumRegister::singleton(Qubit::basis_1())).unwrap();
    let forward = cnot.apply(&two).unwrap();
    let back = cnot.reverse().apply(&forward).unwrap();
    assert!(back.almost_equals(&two));
}

#[test]
fn law_reverse_permutation_cancels() {
    // reverse_permutation(pi) composed with permutation(pi) is the identity
    let pi = vec![2usize, 0, 1];
    let p = QuantumGate::permutation(pi.clone());
    let rp = QuantumGate::reverse_permutation(pi);
    let composed = rp.compose(&p).unwrap();
    let identity = QuantumGate::identity(3);
    assert!(composed.almost_equals(&identity));
    // and exactly: every entry matches the identity
    for i in 0..8usize {
        for j in 0..8usize {
            assert_eq!(composed.get_matrix().get(i, j), identity.get_matrix().get(i, j));
        }
    }
}

#[test]
fn law_qft_round_trip() {
    // IQFT(n) after QFT(n) restores every basis state, n up to 6
    for n in 1..=6usize {
        let qft = QuantumCircuit::fourier_transform(n);
        let iqft = QuantumCircuit::inverse_fourier_transform(n);
        let dim = 1usize << n;
        for v in 0..dim {
            let input = QuantumRegister::from_int(n, v);
            let mid = qft.run(&input).unwrap();
            let out = iqft.run(&mid).unwrap();
            assert!(out.almost_equals(&input), "n = {}, v = {}", n, v);
        }
    }
}

#[test]
fn law_apply_preserves_norm() {
    // G.apply(r) has norm one within tolerance
    let gates = vec![QuantumGate::hadamard(), QuantumGate::not()];
    let q = Qubit::new_normalize(Cx::new(SCALE / 2, SCALE / 7), Cx::new(-SCALE / 3, SCALE / 9))
        .unwrap();
    let reg = QuantumRegister::singleton(q);
    let unit_sq = (SCALE as i128) * (SCALE as i128);
    let slack = 4 * (TOL as i128) * (SCALE as i128);
    for g in &gates {
        let out = g.apply(&reg).unwrap();
        let raw = out.norm_sq_raw();
        assert!((raw - unit_sq).abs() < slack, "norm {}", raw);
    }
    let cps = QuantumGate::controlled_phase_shift(1, 3).unwrap();
    let two = reg.tensor_product(&QuantumRegister::singleton(Qubit::basis_1())).unwrap();
    let out = cps.apply(&two).unwrap();
    let raw = out.norm_sq_raw();
    assert!((raw - unit_sq).abs() < slack, "norm {}", raw);
}

#[test]
fn law_tensor_product_associative() {
    let a = small_matrix();
    let b = SparseMatrix::identity(2);
    let c = {
        let rows = vec![
            vec![(1usize, Cx::new(SCALE / 2, SCALE / 2))],
            vec![(0usize, Cx::new(-SCALE / 2, SCALE / 4))],
        ];
        SparseMatrix::new(2, rows).unwrap()
    };
    let left = a.tensor_product(&b).unwrap().tensor_product(&c).unwrap();
    let right = a.tensor_product(&b.tensor_product(&c).unwrap()).unwrap();
    assert!(left.almost_equals(&right));
}

#[test]
fn error_scalar_overflow() {
    let rows = vec![vec![(0usize, Cx::new(CX_MAX, 0))]];
    let m = SparseMatrix::new(1, rows).unwrap();
    let r = m.scalar_multiply(Cx::new(2 * SCALE, 0));
    assert_eq!(r.unwrap_err(), QError::Overflow);
}

#[test]
fn error_not_a_permutation() {
    // multiplication by 2 mod 6 repeats values and is refused
    let r = QuantumGate::multiplications_mod_n_extended(3, 6, 2);
    assert_eq!(r.unwrap_err(), QError::NotPermutation);
}

#[test]
fn error_zero_norm() {
    let r = Qubit::new_normalize(Cx::zero(), Cx::zero());
    assert_eq!(r.unwrap_err(), QError::ZeroNorm);
}

#[test]
fn error_no_coprime_base() {
    assert_eq!(ShorsAlgo::new(2).unwrap_err(), QError::NoCoprime);
    assert_eq!(ShorsAlgo::new(1).unwrap_err(), QError::NoCoprime);
}

#[test]
fn error_modulus_too_large() {
    assert_eq!(ShorsAlgo::new(5000).unwrap_err(), QError::TooLarge);
}

#[test]
fn error_malformed_matrix() {
    // unsorted columns within a row are refused
    let rows = vec![vec![(1usize, Cx::one()), (0usize, Cx::one())], vec![]];
    assert_eq!(SparseMatrix::new(2, rows).unwrap_err(), QError::Malformed);
    // a stored zero is refused
    let rows = vec![vec![(0usize, Cx::zero())], vec![]];
    assert_eq!(SparseMatrix::new(2, rows).unwrap_err(), QError::Malformed);
}

#[test]
fn scalar_inverse_of_zero_is_none() {
    assert!(Cx::zero().inv().is_none());
    assert!(Cx::one().inv().unwrap() == Cx::one());
}
