use quantum_sim::gate::QuantumGate;
use quantum_sim::matrix::SparseMatrix;
use quantum_sim::phase::unit_root;
use quantum_sim::register::QuantumRegister;
use quantum_sim::scalar::Cx;
use quantum_sim::scalar::SCALE;
use quantum_sim::scalar::TOL;
use quantum_sim::unitary::SquareMatrix;

fn close_i64(a: i64, b: i64) -> bool {
    let d = a - b;
    -TOL < d && d < TOL
}

#[test]
fn normalizing_the_unscaled_hadamard() {
    // [[1, 1], [1, -1]] rescaled to unit row norm gives the
    // Hadamard coefficients, 1/sqrt 2 up to rounding
    let one = Cx::one();
    let v = vec![one, one, one, one.neg()];
    let u = SquareMatrix::from_vec_normalize(2, v).unwrap();
    let h = unit_root(3).re;
    assert!(close_i64(u.get(0, 0).re, h));
    assert!(close_i64(u.get(0, 1).re, h));
    assert!(close_i64(u.get(1, 0).re, h));
    assert!(close_i64(u.get(1, 1).re, -h));
    assert!(u.get(0, 0).im == 0 && u.get(1, 1).im == 0);
}

#[test]
fn normalizing_a_scaled_four_sided_unitary() {
    // twice the CNOT permutation matrix, side 4: new_unitary rescales it
    // back to the permutation matrix itself
    let two = Cx::new(2 * SCALE, 0);
    let rows = vec![
        vec![(0usize, two)],
        vec![(1usize, two)],
        vec![(3usize, two)],
        vec![(2usize, two)],
    ];
    let m = SparseMatrix::new(4, rows).unwrap();
    let u = SquareMatrix::new_unitary(m).unwrap();
    assert_eq!(u.size(), 4);
    assert!(close_i64(u.get(0, 0).re, SCALE));
    assert!(close_i64(u.get(1, 1).re, SCALE));
    assert!(close_i64(u.get(2, 3).re, SCALE));
    assert!(close_i64(u.get(3, 2).re, SCALE));
    assert!(u.get(2, 2) == Cx::zero() && u.get(0, 1) == Cx::zero());
}

#[test]
fn new_unitary_rejects_singular_input() {
    // the all-ones matrix is singular: no rescaling makes it unitary
    let one = Cx::one();
    let rows = vec![
        vec![(0usize, one), (1usize, one)],
        vec![(0usize, one), (1usize, one)],
    ];
    let m = SparseMatrix::new(2, rows).unwrap();
    assert!(SquareMatrix::new_unitary(m).is_err());
}

#[test]
fn scaling_preserves_unitarity() {
    // the identity scaled by i renormalizes to i times the identity
    let id = SquareMatrix::identity(2);
    let u = id.scale(Cx::imaginary_unit()).unwrap();
    assert!(close_i64(u.get(0, 0).im, SCALE) && u.get(0, 0).re == 0);
    assert!(close_i64(u.get(1, 1).im, SCALE) && u.get(1, 1).re == 0);
    assert!(u.get(0, 1) == Cx::zero() && u.get(1, 0) == Cx::zero());
}

#[test]
fn inverting_a_dense_unitary() {
    // the inverse of the normalized Hadamard multiplies back to identity
    let one = Cx::one();
    let v = vec![one, one, one, one.neg()];
    let u = SquareMatrix::from_vec_normalize(2, v).unwrap();
    let inv = u.invert();
    let prod = inv.multiply(&u).unwrap();
    let id = SquareMatrix::identity(2);
    assert!(prod.matrix.almost_equals(&id.matrix));
}

#[test]
fn extra_pauli_like_gates() {
    // z twice is the identity
    let z = QuantumGate::z();
    let zz = z.compose(&z).unwrap();
    assert!(zz.almost_equals(&QuantumGate::identity(1)));

    // y twice is minus the identity, so y is its own inverse up to phase
    let y = QuantumGate::y();
    let yy = y.compose(&y).unwrap();
    assert!(close_i64(yy.get_matrix().get(0, 0).re, -SCALE));
    assert!(close_i64(yy.get_matrix().get(1, 1).re, -SCALE));

    // the doubly controlled X swaps basis states 3 and 7
    let ccx = QuantumGate::cc_x();
    let out = ccx.apply(&QuantumRegister::from_int(3, 3)).unwrap();
    let v = out.get_state_vector();
    assert!(close_i64(v[7].re, SCALE));
    let out = ccx.apply(&QuantumRegister::from_int(3, 7)).unwrap();
    let v = out.get_state_vector();
    assert!(close_i64(v[3].re, SCALE));

    // c_z flips only the sign of the last amplitude
    let cz = QuantumGate::c_z();
    assert!(close_i64(cz.get_matrix().get(3, 3).re, -SCALE));
    assert!(close_i64(cz.get_matrix().get(0, 0).re, SCALE));

    // c_y matches its matrix definition
    let cy = QuantumGate::c_y();
    assert!(close_i64(cy.get_matrix().get(2, 3).im, -SCALE));
    assert!(close_i64(cy.get_matrix().get(3, 2).im, SCALE));

    // dense round trip keeps every coefficient
    let dense = cy.get_matrix().matrix.to_dense();
    let back = SparseMatrix::from_dense(4, &dense).unwrap();
    assert!(back.almost_equals(&cy.get_matrix().matrix));
}
