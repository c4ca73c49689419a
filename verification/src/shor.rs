//! Shor's order-finding circuit.
//!
//! For an input N the circuit acts on n = 2 (floor(log2 N) + 1) qubits:
//! the top half is the argument register, the bottom half the function
//! register. Three blocks are emitted as whole-circuit gates: the Fourier
//! transform lifted to the full width, the variably controlled
//! multiply-by-a block for the smallest base a coprime with N, and the
//! inverse Fourier transform.

use vstd::prelude::*;

use vstd::arithmetic::power2::pow2;

use crate::circuit::QuantumCircuit;
use crate::gate::QuantumGate;
use crate::register::QuantumRegister;
use crate::register::QUBIT_MAX;
use crate::scalar::c_bounded;
use crate::QError;

verus! {

/// The greatest common divisor.
pub open spec fn gcd_spec(a: nat, b: nat) -> nat
    decreases b,
{
    if b == 0 {
        a
    } else {
        gcd_spec(b, a % b)
    }
}

/// The floor of the base-two logarithm; zero below two.
pub open spec fn floor_log2(n: nat) -> nat
    decreases n,
{
    if n < 2 {
        0
    } else {
        1 + floor_log2(n / 2)
    }
}

/// Euclid's algorithm.
pub fn gcd(a: u64, b: u64) -> (r: u64)
    ensures
        r == gcd_spec(a as nat, b as nat),
    decreases b,
{
    if b == 0 {
        a
    } else {
        gcd(b, a % b)
    }
}

/// The floor of the base-two logarithm.
pub fn floor_log2_exec(n: u64) -> (r: u64)
    ensures
        r == floor_log2(n as nat),
        r <= 63,
    decreases n,
{
    proof {
        lemma_floor_log2_small(n as nat);
    }
    if n < 2 {
        0
    } else {
        1 + floor_log2_exec(n / 2)
    }
}

/// The logarithm never exceeds the bit width.
proof fn lemma_floor_log2_small(n: nat)
    requires
        n < 0x1_0000_0000_0000_0000,
    ensures
        floor_log2(n) <= 63,
{
    if n >= 1 {
        lemma_floor_log2_bounds(n);
        vstd::arithmetic::power2::lemma2_to64();
        if floor_log2(n) > 63 {
            if floor_log2(n) > 64 {
                vstd::arithmetic::power2::lemma_pow2_strictly_increases(64, floor_log2(n));
            }
            assert(pow2(floor_log2(n)) >= pow2(64));
            assert(false);
        }
    }
}

/// n is at least 2^(floor log) and below 2^(floor log + 1).
pub proof fn lemma_floor_log2_bounds(n: nat)
    requires
        n >= 1,
    ensures
        pow2(floor_log2(n)) <= n < pow2((floor_log2(n) + 1) as nat),
    decreases n,
{
    vstd::arithmetic::power2::lemma2_to64();
    if n < 2 {
        assert(pow2(0) == 1 && pow2(1) == 2);
    } else {
        lemma_floor_log2_bounds(n / 2);
        vstd::arithmetic::power2::lemma_pow2_unfold((floor_log2(n / 2) + 1) as nat);
        vstd::arithmetic::power2::lemma_pow2_unfold((floor_log2(n / 2) + 2) as nat);
    }
}

/// The full order-finding circuit for an input N.
#[derive(Clone, Debug)]
pub struct ShorsAlgo {
    pub capital_n: u64,
    pub base_a: u64,
    pub circuit: QuantumCircuit,
}

/// The smallest base in [2, N) coprime with N, if one exists.
pub open spec fn is_smallest_coprime(n: int, a: int) -> bool {
    &&& 2 <= a < n
    &&& gcd_spec(a as nat, n as nat) == 1
    &&& forall|y: int| 2 <= y < a ==> #[trigger] gcd_spec(y as nat, n as nat) != 1
}

impl ShorsAlgo {
    /// Build the circuit for N: pick the smallest coprime base, then emit
    /// the lifted Fourier transform, the variably controlled modular
    /// multiplication, and the lifted inverse Fourier transform, each as
    /// one whole-circuit gate. Construction fails exactly when no
    /// coprime base exists or the register would be too wide, and
    /// otherwise only when a composed block leaves the stored bound.
    pub fn new(capital_n: u64) -> (r: Result<ShorsAlgo, QError>)
        ensures
            match r {
                Ok(s) => {
                    &&& s.circuit.wf()
                    &&& s.capital_n == capital_n
                    &&& s.circuit.n_qubits == 2 * (floor_log2(capital_n as nat) + 1)
                    &&& s.circuit.gates@.len() == 3
                    &&& is_smallest_coprime(capital_n as int, s.base_a as int)
                    &&& {
                        let mq = (floor_log2(capital_n as nat) + 1) as int;
                        let qs = pow2(mq as nat) as int;
                        let full = pow2((2 * mq) as nat) as int;
                        &&& exists|qc: QuantumCircuit|
                            #[trigger] crate::circuit::is_qft_circuit(qc, mq) && forall|
                                i: int,
                                j: int,
                            |
                                0 <= i < full && 0 <= j < full ==> s.circuit.gates@[0].at(i, j)
                                    == (if i / qs == j / qs {
                                    crate::circuit::gates_prod_at(qc.gates@, qs, i % qs, j % qs)
                                } else {
                                    crate::scalar::c_zero()
                                })
                        &&& exists|ic: QuantumCircuit|
                            #[trigger] crate::circuit::is_iqft_circuit(ic, mq) && forall|
                                i: int,
                                j: int,
                            |
                                0 <= i < full && 0 <= j < full ==> s.circuit.gates@[2].at(i, j)
                                    == (if i / qs == j / qs {
                                    crate::circuit::gates_prod_at(ic.gates@, qs, i % qs, j % qs)
                                } else {
                                    crate::scalar::c_zero()
                                })
                        &&& exists|bg: QuantumGate, vcc: QuantumCircuit|
                            #![trigger crate::circuit::is_vc_gate(vcc.gates@[0], bg, mq, 0)]
                            {
                                &&& bg.wf()
                                &&& bg.n_qubits == mq
                                &&& forall|b: int, c: int|
                                    0 <= b < bg.spec_size() && 0 <= c < bg.spec_size() ==> bg.at(
                                        b,
                                        c,
                                    ) == (if c == crate::gate::modmul_map(
                                        capital_n as int,
                                        s.base_a as int,
                                        b,
                                    ) {
                                        crate::scalar::c_one()
                                    } else {
                                        crate::scalar::c_zero()
                                    })
                                &&& vcc.gates@.len() == mq
                                &&& forall|u: int|
                                    0 <= u < mq ==> crate::circuit::is_vc_gate(
                                        #[trigger] vcc.gates@[u],
                                        bg,
                                        mq,
                                        u,
                                    )
                                &&& forall|i: int, j: int|
                                    0 <= i < full && 0 <= j < full ==> s.circuit.gates@[1].at(i, j)
                                        == crate::circuit::gates_prod_at(vcc.gates@, full, i, j)
                            }
                    }
                },
                Err(e) => {
                    &&& (e == QError::NoCoprime || e == QError::TooLarge || e == QError::Overflow
                        || e == QError::NotPermutation)
                    &&& (e == QError::TooLarge <==> (capital_n >= 2 && floor_log2(
                        capital_n as nat,
                    ) + 1 > (QUBIT_MAX as int) / 2))
                    &&& (e == QError::NoCoprime <==> (capital_n < 2 || (floor_log2(
                        capital_n as nat,
                    ) + 1 <= (QUBIT_MAX as int) / 2 && forall|y: int|
                        2 <= y < capital_n ==> #[trigger] gcd_spec(y as nat, capital_n as nat)
                            != 1)))
                    &&& (e == QError::NotPermutation ==> exists|aa: int, b1: int, b2: int|
                        is_smallest_coprime(capital_n as int, aa) && 0 <= b1 < b2 < capital_n
                            && #[trigger] crate::gate::modmul_map(capital_n as int, aa, b1)
                            == #[trigger] crate::gate::modmul_map(capital_n as int, aa, b2))
                },
            },
    {
        if capital_n < 2 {
            return Err(QError::NoCoprime);
        }
        let m64: u64 = floor_log2_exec(capital_n) + 1;
        if m64 > (QUBIT_MAX as u64) / 2 {
            return Err(QError::TooLarge);
        }
        let m: usize = m64 as usize;
        let n: usize = 2 * m;
        // smallest coprime base
        let mut a: u64 = 2;
        let mut found: bool = false;
        while a < capital_n && !found
            invariant
                2 <= a <= capital_n,
                found ==> 2 <= a < capital_n && gcd_spec(a as nat, capital_n as nat) == 1,
                forall|y: int|
                    2 <= y < a && !(found && y == a) ==> #[trigger] gcd_spec(
                        y as nat,
                        capital_n as nat,
                    ) != 1,
            decreases capital_n - a + (if found {
                0int
            } else {
                1int
            }),
        {
            if gcd(a, capital_n) == 1 {
                found = true;
            } else {
                a = a + 1;
            }
        }
        if !found {
            return Err(QError::NoCoprime);
        }
        proof {
            lemma_floor_log2_bounds(capital_n as nat);
            vstd::arithmetic::power2::lemma_pow2_adds(m as nat, m as nat);
        }
        // the three blocks
        let qft = QuantumCircuit::fourier_transform(m);
        let qft_gate = match qft.as_gate() {
            Ok(g) => g,
            Err(e) => {
                proof {
                    let y0: int = a as int;
                    assert(gcd_spec(y0 as nat, capital_n as nat) == 1);
                    assert(!(forall|y: int|
                        2 <= y < capital_n ==> #[trigger] gcd_spec(y as nat, capital_n as nat)
                            != 1));
                }
                return Err(QError::Overflow);
            },
        };
        let iqft = QuantumCircuit::inverse_fourier_transform(m);
        let iqft_gate = match iqft.as_gate() {
            Ok(g) => g,
            Err(e) => {
                proof {
                    let y0: int = a as int;
                    assert(gcd_spec(y0 as nat, capital_n as nat) == 1);
                    assert(!(forall|y: int|
                        2 <= y < capital_n ==> #[trigger] gcd_spec(y as nat, capital_n as nat)
                            != 1));
                }
                return Err(QError::Overflow);
            },
        };
        let idm = QuantumGate::identity(m);
        let lifted_qft = lift_to_full(&idm, &qft_gate);
        let idm2 = QuantumGate::identity(m);
        let lifted_iqft = lift_to_full(&idm2, &iqft_gate);
        let base_gate = match QuantumGate::multiplications_mod_n_extended(m, capital_n, a) {
            Ok(g) => g,
            Err(e) => {
                proof {
                    let (b1, b2) = choose|b1: int, b2: int|
                        #![trigger crate::gate::modmul_map(capital_n as int, a as int, b1), crate::gate::modmul_map(capital_n as int, a as int, b2)]
                        0 <= b1 < b2 < capital_n && crate::gate::modmul_map(
                            capital_n as int,
                            a as int,
                            b1,
                        ) == crate::gate::modmul_map(capital_n as int, a as int, b2);
                    assert(is_smallest_coprime(capital_n as int, a as int));
                    assert(is_smallest_coprime(capital_n as int, a as int) && 0 <= b1 < b2
                        < capital_n && crate::gate::modmul_map(capital_n as int, a as int, b1)
                        == crate::gate::modmul_map(capital_n as int, a as int, b2));
                }
                return Err(QError::NotPermutation);
            },
        };
        let vc = QuantumCircuit::variably_controlled_gate(&base_gate);
        let vc_gate = match vc.as_gate() {
            Ok(g) => g,
            Err(e) => {
                proof {
                    let y0: int = a as int;
                    assert(gcd_spec(y0 as nat, capital_n as nat) == 1);
                    assert(!(forall|y: int|
                        2 <= y < capital_n ==> #[trigger] gcd_spec(y as nat, capital_n as nat)
                            != 1));
                }
                return Err(QError::Overflow);
            },
        };
        let mut circuit = QuantumCircuit::new(n);
        circuit.gates.push(lifted_qft);
        circuit.gates.push(vc_gate);
        circuit.gates.push(lifted_iqft);
        let s = ShorsAlgo { capital_n, base_a: a, circuit };
        proof {
            let mq = (floor_log2(capital_n as nat) + 1) as int;
            let qs = pow2(mq as nat) as int;
            let full = pow2((2 * mq) as nat) as int;
            assert(crate::circuit::is_qft_circuit(qft, mq) && forall|i: int, j: int|
                0 <= i < full && 0 <= j < full ==> s.circuit.gates@[0].at(i, j) == (if i / qs == j
                    / qs {
                    crate::circuit::gates_prod_at(qft.gates@, qs, i % qs, j % qs)
                } else {
                    crate::scalar::c_zero()
                }));
            assert(crate::circuit::is_iqft_circuit(iqft, mq) && forall|i: int, j: int|
                0 <= i < full && 0 <= j < full ==> s.circuit.gates@[2].at(i, j) == (if i / qs == j
                    / qs {
                    crate::circuit::gates_prod_at(iqft.gates@, qs, i % qs, j % qs)
                } else {
                    crate::scalar::c_zero()
                }));
            assert(crate::circuit::is_vc_gate(vc.gates@[0], base_gate, mq, 0));
            assert(base_gate.wf() && base_gate.n_qubits == mq && vc.gates@.len() == mq && (forall|
                u: int,
            |
                0 <= u < mq ==> crate::circuit::is_vc_gate(
                    #[trigger] vc.gates@[u],
                    base_gate,
                    mq,
                    u,
                )) && (forall|i: int, j: int|
                0 <= i < full && 0 <= j < full ==> s.circuit.gates@[1].at(i, j)
                    == crate::circuit::gates_prod_at(vc.gates@, full, i, j)));
        }
        Ok(s)
    }

    /// The synthesized circuit.
    pub fn get_circuit(&self) -> (c: &QuantumCircuit)
        ensures
            c == self.circuit,
    {
        &self.circuit
    }

    /// Prepare the argument register in zero and the function register in
    /// one (together the basis state 1 of the full register), run the
    /// circuit, and interpret one random draw by the Born walk. On
    /// success the outcome is the walk's answer for some register the
    /// circuit runs to from that initial state.
    #[verifier::rlimit(60)]
    pub fn run(&self) -> (r: Result<u64, QError>)
        requires
            self.circuit.wf(),
            self.circuit.n_qubits % 2 == 0,
        ensures
            match r {
                Ok(v) => {
                    &&& v < pow2(self.circuit.n_qubits as nat)
                    &&& exists|init: QuantumRegister, out: QuantumRegister, d: int|
                        #![trigger crate::circuit::runs_to(self.circuit.gates@, init, out), out.measured_outcome(d, v as int)]
                        {
                            &&& init.wf()
                            &&& init.n_qubits == self.circuit.n_qubits
                            &&& init.is_basis(1)
                            &&& out.wf()
                            &&& out.n_qubits == self.circuit.n_qubits
                            &&& crate::circuit::runs_to(self.circuit.gates@, init, out)
                            &&& out.measured_outcome(d, v as int)
                        }
                },
                Err(e) => {
                    &&& (e == QError::Overflow || e == QError::ZeroNorm)
                    &&& exists|init: QuantumRegister, t: int, mid: QuantumRegister|
                        #![trigger crate::circuit::runs_to(self.circuit.gates@.take(t), init, mid)]
                        {
                            &&& init.wf()
                            &&& init.n_qubits == self.circuit.n_qubits
                            &&& init.is_basis(1)
                            &&& 0 <= t < self.circuit.gates@.len()
                            &&& crate::circuit::runs_to(self.circuit.gates@.take(t), init, mid)
                        }
                },
            },
    {
        let m: usize = self.circuit.get_n_qubits() / 2;
        proof {
            vstd::arithmetic::power2::lemma_pow2_pos(m as nat);
            vstd::arithmetic::power2::lemma2_to64();
            vstd::arithmetic::power2::lemma_pow2_adds(m as nat, m as nat);
            if m >= 1 {
                vstd::arithmetic::power2::lemma_pow2_unfold(m as nat);
                vstd::arithmetic::power2::lemma_pow2_pos((m - 1) as nat);
            }
        }
        let argument = QuantumRegister::from_int(m, 0);
        let function = QuantumRegister::from_int(m, 1);
        let initial = match argument.tensor_product(&function) {
            Ok(v) => v,
            Err(e) => {
                proof {
                    let qs = function.spec_len();
                    let i = choose|i: int|
                        0 <= i < argument.spec_len() * function.spec_len() && !c_bounded(
                            #[trigger] crate::scalar::c_mul(
                                argument.at(i / function.spec_len()),
                                function.at(i % function.spec_len()),
                            ),
                            crate::scalar::CX_MAX as int,
                        );
                    assert(0 <= i / qs < argument.spec_len() && 0 <= i % qs < qs)
                        by (nonlinear_arith)
                        requires
                            0 <= i < argument.spec_len() * qs,
                            qs >= 1,
                            argument.spec_len() >= 1,
                    ;
                    crate::scalar::lemma_c_mul_zero(argument.at(i / qs));
                    crate::scalar::lemma_c_mul_zero(function.at(i % qs));
                    crate::scalar::lemma_c_mul_one(function.at(i % qs));
                    assert(false);
                }
                vstd::pervasive::unreached()
            },
        };
        proof {
            let qs = function.spec_len();
            assert forall|i: int| 0 <= i < initial.spec_len() implies initial.at(i) == (if i == 1 {
                crate::scalar::c_one()
            } else {
                crate::scalar::c_zero()
            }) by {
                assert(0 <= i / qs < argument.spec_len() && 0 <= i % qs < qs) by (nonlinear_arith)
                    requires
                        0 <= i < argument.spec_len() * qs,
                        qs >= 1,
                        argument.spec_len() >= 1,
                ;
                crate::scalar::lemma_c_mul_zero(argument.at(i / qs));
                crate::scalar::lemma_c_mul_zero(function.at(i % qs));
                crate::scalar::lemma_c_mul_one(function.at(i % qs));
                if i / qs == 0 && i % qs == 1 {
                    vstd::arithmetic::div_mod::lemma_fundamental_div_mod(i, qs);
                }
                if i == 1 {
                    vstd::arithmetic::div_mod::lemma_fundamental_div_mod_converse(1, qs, 0, 1);
                }
            }
            assert(initial.is_basis(1));
        }
        let out = match self.circuit.run(&initial) {
            Ok(v) => v,
            Err(e) => {
                return Err(e);
            },
        };
        let d: i64 = crate::rng::draw_unit();
        let (outcome, _collapsed) = out.measure_with(d);
        proof {
            out.lemma_len_bound();
            assert(m + m == self.circuit.n_qubits);
            assert(initial.wf() && initial.n_qubits == self.circuit.n_qubits && initial.is_basis(
                1,
            ));
            assert(out.wf() && out.n_qubits == self.circuit.n_qubits);
            assert(crate::circuit::runs_to(self.circuit.gates@, initial, out));
            assert(out.measured_outcome(d as int, outcome as int));
            assert(outcome < pow2(self.circuit.n_qubits as nat));
            assert(exists|init2: QuantumRegister, out2: QuantumRegister, d2: int|
                #![trigger crate::circuit::runs_to(self.circuit.gates@, init2, out2), out2.measured_outcome(d2, outcome as int)]
                {
                    &&& init2.wf()
                    &&& init2.n_qubits == self.circuit.n_qubits
                    &&& init2.is_basis(1)
                    &&& out2.wf()
                    &&& out2.n_qubits == self.circuit.n_qubits
                    &&& crate::circuit::runs_to(self.circuit.gates@, init2, out2)
                    &&& out2.measured_outcome(d2, outcome as int)
                });
        }
        Ok(outcome)
    }
}

/// Tensor an identity block onto a gate; entries of either factor are
/// bounded ones and zeros or stored coefficients, so the product cannot
/// leave the stored bound.
fn lift_to_full(idg: &QuantumGate, g: &QuantumGate) -> (r: QuantumGate)
    requires
        idg.wf(),
        g.wf(),
        idg.n_qubits + g.n_qubits <= QUBIT_MAX,
        forall|i: int, j: int|
            0 <= i < idg.spec_size() && 0 <= j < idg.spec_size() ==> idg.at(i, j) == (if i == j {
                crate::scalar::c_one()
            } else {
                crate::scalar::c_zero()
            }),
    ensures
        r.wf(),
        r.n_qubits == idg.n_qubits + g.n_qubits,
        r.spec_size() == idg.spec_size() * g.spec_size(),
        forall|i: int, j: int|
            0 <= i < r.spec_size() && 0 <= j < r.spec_size() ==> r.at(i, j) == (if i
                / g.spec_size() == j / g.spec_size() {
                g.at(i % g.spec_size(), j % g.spec_size())
            } else {
                crate::scalar::c_zero()
            }),
{
    let r = match idg.tensor_product(g) {
        Ok(v) => v,
        Err(e) => {
            proof {
                let bs = g.spec_size();
                let ids = idg.spec_size();
                let (i, j) = choose|i: int, j: int|
                    0 <= i < idg.spec_size() * g.spec_size() && 0 <= j < idg.spec_size()
                        * g.spec_size() && !c_bounded(
                        #[trigger] crate::scalar::c_mul(
                            idg.at(i / g.spec_size(), j / g.spec_size()),
                            g.at(i % g.spec_size(), j % g.spec_size()),
                        ),
                        crate::scalar::CX_MAX as int,
                    );
                assert(0 <= i / bs < ids && 0 <= j / bs < ids && 0 <= i % bs < bs && 0 <= j % bs
                    < bs) by (nonlinear_arith)
                    requires
                        0 <= i < ids * bs,
                        0 <= j < ids * bs,
                        bs >= 1,
                        ids >= 1,
                ;
                g.matrix.matrix.lemma_at_bounded(i % bs, j % bs);
                if i / bs == j / bs {
                    crate::scalar::lemma_c_mul_one(g.at(i % bs, j % bs));
                } else {
                    crate::scalar::lemma_c_mul_zero(g.at(i % bs, j % bs));
                }
                assert(false);
            }
            vstd::pervasive::unreached()
        },
    };
    proof {
        let bs = g.spec_size();
        let ids = idg.spec_size();
        assert forall|i: int, j: int|
            0 <= i < r.spec_size() && 0 <= j < r.spec_size() implies r.at(i, j) == (if i
            / g.spec_size() == j / g.spec_size() {
            g.at(i % g.spec_size(), j % g.spec_size())
        } else {
            crate::scalar::c_zero()
        }) by {
            assert(0 <= i / bs < ids && 0 <= j / bs < ids && 0 <= i % bs < bs && 0 <= j % bs < bs)
                by (nonlinear_arith)
                requires
                    0 <= i < ids * bs,
                    0 <= j < ids * bs,
                    bs >= 1,
                    ids >= 1,
            ;
            if i / bs == j / bs {
                crate::scalar::lemma_c_mul_one(g.at(i % bs, j % bs));
            } else {
                crate::scalar::lemma_c_mul_zero(g.at(i % bs, j % bs));
            }
        }
    }
    r
}

} // verus!
