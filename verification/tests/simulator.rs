use quantum_sim::circuit::QuantumCircuit;
use quantum_sim::circuitry::QuantumCicuitry;
use quantum_sim::gate::QuantumGate;
use quantum_sim::phase::unit_root;
use quantum_sim::qubit::Qubit;
use quantum_sim::register::QuantumRegister;
use quantum_sim::scalar::Cx;
use quantum_sim::scalar::SCALE;
use quantum_sim::scalar::TOL;

fn close_i64(a: i64, b: i64) -> bool {
    let d = a - b;
    -TOL < d && d < TOL
}

fn assert_state_close(reg: &QuantumRegister, expected: &[Cx]) {
    let v = reg.get_state_vector();
    assert_eq!(v.len(), expected.len());
    for i in 0..v.len() {
        assert!(
            close_i64(v[i].re, expected[i].re) && close_i64(v[i].im, expected[i].im),
            "amplitude {} was ({}, {}), expected ({}, {})",
            i,
            v[i].re,
            v[i].im,
            expected[i].re,
            expected[i].im
        );
    }
}

#[test]
fn test_qubit_initalizes() {
    assert_eq!(Qubit::basis_0(), Qubit::new(Cx::one(), Cx::zero()));
    assert_eq!(Qubit::basis_1(), Qubit::new(Cx::zero(), Cx::one()));
}

#[test]
fn test_qubit_measurement() {
    // should be 0
    let (basis_0_measure, new_state_qubit) = Qubit::basis_0().measure();
    assert_eq!(basis_0_measure, 0);
    assert_eq!(new_state_qubit, Qubit::basis_0());

    // should be 1
    let (basis_1_measure, new_state_qubit) = Qubit::basis_1().measure();
    assert_eq!(basis_1_measure, 1);
    assert_eq!(new_state_qubit, Qubit::basis_1());
}

#[test]
fn test_create_state_vector_qubits() {
    let vec = vec![Qubit::basis_1(), Qubit::basis_0()];
    let state_vector = QuantumRegister::create_state_vector_qubits(&vec).unwrap();
    let mut true_state = vec![Cx::zero(); 4];
    true_state[2] = Cx::one();
    assert_eq!(state_vector, true_state);

    // state |0000>
    let vec = vec![Qubit::basis_0(); 4];
    let state_vector = QuantumRegister::create_state_vector_qubits(&vec).unwrap();
    let mut true_vector = vec![Cx::zero(); 16];
    true_vector[0] = Cx::one();
    assert_eq!(state_vector, true_vector);

    // state |0001>
    let mut vec = vec![Qubit::basis_0(); 4];
    vec[3] = Qubit::basis_1();
    let state_vector = QuantumRegister::create_state_vector_qubits(&vec).unwrap();
    let mut true_vector = vec![Cx::zero(); 16];
    true_vector[1] = Cx::one();
    assert_eq!(state_vector, true_vector);

    // state |1000>
    let mut vec = vec![Qubit::basis_0(); 4];
    vec[0] = Qubit::basis_1();
    let state_vector = QuantumRegister::create_state_vector_qubits(&vec).unwrap();
    let mut true_vector = vec![Cx::zero(); 16];
    true_vector[8] = Cx::one();
    assert_eq!(state_vector, true_vector);

    // state |1111>
    let vec = vec![Qubit::basis_1(); 4];
    let state_vector = QuantumRegister::create_state_vector_qubits(&vec).unwrap();
    let mut true_vector = vec![Cx::zero(); 16];
    true_vector[15] = Cx::one();
    assert_eq!(state_vector, true_vector);
}

#[test]
fn test_get_amplitude() {
    // the amplitudes of a balanced two-qubit product state sum to one
    let q = Qubit::new_normalize(Cx::new(94906266, 0), Cx::new(SCALE / 2, 0)).unwrap();
    let vec = vec![q, q];
    let mut sum: i64 = 0;
    for i in 0..4u64 {
        let amp = QuantumCicuitry::get_amplitude(i, &vec).unwrap();
        sum += amp.re;
    }
    assert!(close_i64(sum, SCALE));

    // (basis_1, basis_1) is certainly [11]
    let vec = vec![Qubit::basis_1(), Qubit::basis_1()];
    let amp = QuantumCicuitry::get_amplitude(3, &vec).unwrap();
    assert!(close_i64(amp.re, SCALE) && amp.im == 0);

    // (basis_1, basis_0) is certainly [10]
    let vec = vec![Qubit::basis_1(), Qubit::basis_0()];
    let amp = QuantumCicuitry::get_amplitude(2, &vec).unwrap();
    assert!(close_i64(amp.re, SCALE) && amp.im == 0);

    // (basis_0, basis_0) is certainly [00]
    let vec = vec![Qubit::basis_0(), Qubit::basis_0()];
    let amp = QuantumCicuitry::get_amplitude(0, &vec).unwrap();
    assert!(close_i64(amp.re, SCALE) && amp.im == 0);
}

#[test]
fn test_measurer() {}

#[test]
fn test_XGate_circuit() {
    // a NOT on each of 4 qubits sends |1111> to |0000>
    let mut circuit = QuantumCircuit::new(4);
    for i in 0..4usize {
        circuit.add_gate(&QuantumGate::not(), &vec![i]);
    }
    let start = QuantumRegister::from_int(4, 15);
    let mid = circuit.run(&start).unwrap();
    let mut expected = vec![Cx::zero(); 16];
    expected[0] = Cx::one();
    assert_state_close(&mid, &expected);

    // running the same gates again returns to |1111>
    let back = circuit.run(&mid).unwrap();
    let mut expected = vec![Cx::zero(); 16];
    expected[15] = Cx::one();
    assert_state_close(&back, &expected);

    // a double Hadamard on every qubit is the identity up to tolerance
    let mut hh = QuantumCircuit::new(4);
    for i in 0..4usize {
        hh.add_gate(&QuantumGate::hadamard(), &vec![i]);
    }
    for i in 0..4usize {
        hh.add_gate(&QuantumGate::hadamard(), &vec![i]);
    }
    let out = hh.run(&start).unwrap();
    assert!(out.almost_equals(&start));
}

#[test]
fn test_apply_XGate() {
    // X on a single qubit register flips |0> to |1>
    let reg = QuantumRegister::singleton(Qubit::basis_0());
    let out = QuantumGate::not().apply(&reg).unwrap();
    assert_state_close(&out, &[Cx::zero(), Cx::one()]);

    // X tensored on the left of an identity sends |00> to |10>
    let lifted = QuantumGate::not().tensor_product(&QuantumGate::identity(1)).unwrap();
    let reg = QuantumRegister::from_int(2, 0);
    let out = lifted.apply(&reg).unwrap();
    let mut expected = vec![Cx::zero(); 4];
    expected[2] = Cx::one();
    assert_state_close(&out, &expected);

    // through circuit insertion, position 0 is the low-order qubit: the
    // same X there sends |00> to |01>
    let mut circuit = QuantumCircuit::new(2);
    circuit.add_gate(&QuantumGate::not(), &vec![0]);
    let out = circuit.run(&reg).unwrap();
    let mut expected = vec![Cx::zero(); 4];
    expected[1] = Cx::one();
    assert_state_close(&out, &expected);
}

#[test]
fn test_can_multiply_complex_numbers_by_complex_vectors() {
    // scale the components of a balanced unit vector by 3 + 2i
    let q = Qubit::new_normalize(Cx::one(), Cx::one()).unwrap();
    let c = Cx::new(3 * SCALE, 2 * SCALE);
    let (a, b) = q.get_state();
    let x = c.mul(a);
    let y = c.mul(b);
    // each component of the vector is about 1/sqrt 2
    let h = unit_root(3).re;
    let three_h = ((3 * h as i128) * (SCALE as i128) / (SCALE as i128)) as i64;
    let two_h = 2 * h;
    assert!(close_i64(x.re, three_h), "{}", x.re);
    assert!(close_i64(x.im, two_h), "{}", x.im);
    assert!(close_i64(y.re, three_h), "{}", y.re);
    assert!(close_i64(y.im, two_h), "{}", y.im);
}

#[test]
fn scenario_qft_two_qubits_on_three() {
    // QFT(2) run on |3> equals the product state with phases
    // e^(i tau/2) = -1 on the high qubit and e^(i tau 3/4) = -i low
    let qft = QuantumCircuit::fourier_transform(2);
    let input = QuantumRegister::from_int(2, 3);
    let out = qft.run(&input).unwrap();
    let h = unit_root(3).re;
    let high = QuantumRegister::singleton(Qubit::new(Cx::new(h, 0), Cx::new(-h, 0)));
    let low = QuantumRegister::singleton(Qubit::new(Cx::new(h, 0), Cx::new(0, -h)));
    let expected = high.tensor_product(&low).unwrap();
    assert!(out.almost_equals(&expected));
}

#[test]
fn scenario_x_flips_basis_states() {
    let x = QuantumGate::not();
    let zero = QuantumRegister::singleton(Qubit::basis_0());
    let one = QuantumRegister::singleton(Qubit::basis_1());
    let flipped = x.apply(&zero).unwrap();
    assert_state_close(&flipped, &[Cx::zero(), Cx::one()]);
    let back = x.apply(&one).unwrap();
    assert_state_close(&back, &[Cx::one(), Cx::zero()]);
}

#[test]
fn scenario_cnot_on_all_basis_states() {
    let cnot = QuantumGate::cnot();
    let expected_map = [0usize, 1, 3, 2];
    for b in 0..4usize {
        let input = QuantumRegister::from_int(2, b);
        let out = cnot.apply(&input).unwrap();
        let mut expected = vec![Cx::zero(); 4];
        expected[expected_map[b]] = Cx::one();
        assert_state_close(&out, &expected);
    }
}

#[test]
fn scenario_measure_basis_deterministic() {
    for k in 0..8usize {
        let reg = QuantumRegister::basis(3, k);
        let (outcome, collapsed) = reg.measure();
        assert_eq!(outcome, k as u64);
        let mut expected = vec![Cx::zero(); 8];
        expected[k] = Cx::one();
        assert_state_close(&collapsed, &expected);
    }
}

#[test]
fn scenario_shor_circuit_shape() {
    // n = 2 (floor(log2 15) + 1) = 8 qubits, three stored gates
    let algo = quantum_sim::shor::ShorsAlgo::new(15).unwrap();
    let circuit = algo.get_circuit();
    assert_eq!(circuit.get_n_qubits(), 8);
    assert_eq!(circuit.n_gates(), 3);
    assert_eq!(algo.base_a, 2);

    // the first stored gate is identity(4) tensor QFT(4) as one gate,
    // the last identity(4) tensor the inverse QFT
    let qft_gate = QuantumCircuit::fourier_transform(4).as_gate().unwrap();
    let expected_first = QuantumGate::identity(4).tensor_product(&qft_gate).unwrap();
    assert!(expected_first.almost_equals(&circuit.gates[0]));
    let iqft_gate = QuantumCircuit::inverse_fourier_transform(4).as_gate()
        .unwrap();
    let expected_last = QuantumGate::identity(4).tensor_product(&iqft_gate).unwrap();
    assert!(expected_last.almost_equals(&circuit.gates[2]));

    // smaller modulus: n = 2 (floor(log2 6) + 1) = 6 qubits, base 5
    let algo6 = quantum_sim::shor::ShorsAlgo::new(6).unwrap();
    assert_eq!(algo6.get_circuit().get_n_qubits(), 6);
    assert_eq!(algo6.get_circuit().n_gates(), 3);
    assert_eq!(algo6.base_a, 5);
}

#[test]
fn scenario_shor_runs_to_an_outcome() {
    let algo = quantum_sim::shor::ShorsAlgo::new(15).unwrap();
    let outcome = algo.run().unwrap();
    assert!(outcome < 256);
}

#[test]
fn scenario_multiplication_mod_n_on_basis_states() {
    // multiplication by 5 mod 6 on 6 qubits: |i> goes to |(5 i) mod 6>
    // below 6 and stays put above
    let gate = QuantumGate::multiplications_mod_n_extended(6, 6, 5).unwrap();
    for i in 0..6usize {
        let input = QuantumRegister::from_int(6, i);
        let out = gate.apply(&input).unwrap();
        let mut expected = vec![Cx::zero(); 64];
        expected[(5 * i) % 6] = Cx::one();
        assert_state_close(&out, &expected);
    }
    for i in [6usize, 7, 40, 63] {
        let input = QuantumRegister::from_int(6, i);
        let out = gate.apply(&input).unwrap();
        let mut expected = vec![Cx::zero(); 64];
        expected[i] = Cx::one();
        assert_state_close(&out, &expected);
    }
}
