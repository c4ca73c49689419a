//! Elementary register bookkeeping over lists of qubits.
//!
//! These helpers read a list of independent qubits as one register: the
//! amplitude of a basis outcome is the product of one squared component
//! per qubit, selected by the outcome's bits read big-endian.

use vstd::prelude::*;

use vstd::arithmetic::power2::pow2;

use crate::bits::bits_of;
use crate::qubit::Qubit;
use crate::register::pow2_checked;
use crate::register::QUBIT_MAX;
use crate::scalar::c_bounded;
use crate::scalar::c_mul;
use crate::scalar::c_one;
use crate::scalar::Cv;
use crate::scalar::Cx;
use crate::scalar::CX_MAX;
use crate::QError;

verus! {

/// The squared component a qubit contributes: the amplitude of 1 when the
/// bit is set, of 0 otherwise, multiplied by itself.
pub open spec fn squared_component(q: Qubit, bit: bool) -> Cv {
    if bit {
        c_mul(q.amp1@, q.amp1@)
    } else {
        c_mul(q.amp0@, q.amp0@)
    }
}

/// The running product over the first t qubits, each contributing its
/// squared component selected by the matching big-endian bit.
pub open spec fn amp_prefix(qs: Seq<Qubit>, bits: Seq<bool>, t: nat) -> Cv
    decreases t,
{
    if t == 0 {
        c_one()
    } else {
        c_mul(
            amp_prefix(qs, bits, (t - 1) as nat),
            squared_component(qs[t - 1], bits[qs.len() - t]),
        )
    }
}

/// Whether every factor and running product stays within the stored
/// bound.
pub open spec fn amp_prefix_ok(qs: Seq<Qubit>, bits: Seq<bool>, t: nat) -> bool
    decreases t,
{
    if t == 0 {
        true
    } else {
        &&& amp_prefix_ok(qs, bits, (t - 1) as nat)
        &&& c_bounded(squared_component(qs[t - 1], bits[qs.len() - t]), CX_MAX as int)
        &&& c_bounded(amp_prefix(qs, bits, t), CX_MAX as int)
    }
}

/// The little-endian bits of an index, as a vector.
fn index_bits(b: u64, n: usize) -> (w: Vec<bool>)
    requires
        n <= QUBIT_MAX,
        b < pow2(n as nat),
    ensures
        w@ == bits_of(b as int, n as nat),
        w@.len() == n,
{
    proof {
        assert(bits_of(b as int, 0) =~= Seq::<bool>::empty());
        assert(pow2(0) == 1) by {
            vstd::arithmetic::power2::lemma2_to64();
        }
        assert((b as int) / 1 == b as int) by (nonlinear_arith);
        crate::bits::lemma_bits_len(b as int, n as nat);
        vstd::arithmetic::power2::lemma2_to64();
        if (n as nat) < 20 {
            vstd::arithmetic::power2::lemma_pow2_strictly_increases(n as nat, 20);
        }
    }
    let mut w: Vec<bool> = Vec::new();
    let mut cur: u64 = b;
    let mut s: usize = 0;
    while s < n
        invariant
            s <= n,
            b < 0x200000,
            w@ == bits_of(b as int, s as nat),
            w@.len() == s,
            cur as int == (b as int) / (pow2(s as nat) as int),
        decreases n - s,
    {
        proof {
            crate::bits::lemma_bits_snoc(b as int, s as nat);
            crate::bits::lemma_bits_len(b as int, s as nat);
            vstd::arithmetic::power2::lemma_pow2_pos(s as nat);
            vstd::arithmetic::power2::lemma_pow2_unfold((s + 1) as nat);
            vstd::arithmetic::div_mod::lemma_div_denominator(b as int, pow2(s as nat) as int, 2);
            vstd::arithmetic::mul::lemma_mul_is_commutative(pow2(s as nat) as int, 2);
        }
        w.push(cur % 2 == 1);
        cur = cur / 2;
        s = s + 1;
    }
    w
}

/// Helpers that treat a list of qubits as one measured register.
pub struct QuantumCicuitry {}

impl QuantumCicuitry {
    /// Adding three qubits classically is not modelled: both outputs are
    /// the zero basis state.
    pub fn full_adder(lhs: Qubit, rhs: Qubit, carry_in: Qubit) -> (r: (Qubit, Qubit))
        ensures
            r.0.amp0@ == c_one(),
            r.0.amp1@ == crate::scalar::c_zero(),
            r.1.amp0@ == c_one(),
            r.1.amp1@ == crate::scalar::c_zero(),
    {
        (Qubit::basis_0(), Qubit::basis_0())
    }

    /// The amplitude the qubit list assigns to one basis outcome: the
    /// product, over the qubits from most significant to least, of the
    /// squared component selected by the outcome's bit. Fails exactly
    /// when a factor or running product leaves the stored bound.
    pub fn get_amplitude(digit: u64, vec: &Vec<Qubit>) -> (r: Result<Cx, QError>)
        requires
            1 <= vec@.len() <= QUBIT_MAX,
            digit < pow2(vec@.len() as nat),
            forall|t: int| 0 <= t < vec@.len() ==> (#[trigger] vec@[t]).wf(),
        ensures
            match r {
                Ok(v) => {
                    &&& v@ == amp_prefix(
                        vec@,
                        bits_of(digit as int, vec@.len() as nat),
                        vec@.len() as nat,
                    )
                    &&& v.wf()
                    &&& amp_prefix_ok(
                        vec@,
                        bits_of(digit as int, vec@.len() as nat),
                        vec@.len() as nat,
                    )
                },
                Err(e) => {
                    &&& e == QError::Overflow
                    &&& !amp_prefix_ok(
                        vec@,
                        bits_of(digit as int, vec@.len() as nat),
                        vec@.len() as nat,
                    )
                },
            },
    {
        let n: usize = vec.len();
        let bits = index_bits(digit, n);
        let ghost bs = bits@;
        let mut acc: Cx = Cx::one();
        let mut i: usize = 0;
        while i < n
            invariant
                i <= n,
                n == vec@.len(),
                bs == bits@,
                bs == bits_of(digit as int, n as nat),
                bs.len() == n,
                forall|t: int| 0 <= t < n ==> (#[trigger] vec@[t]).wf(),
                acc.wf(),
                acc@ == amp_prefix(vec@, bs, i as nat),
                amp_prefix_ok(vec@, bs, i as nat),
            decreases n - i,
        {
            let q: Qubit = vec[i];
            let bit: bool = bits[n - 1 - i];
            let comp: Cx = if bit {
                q.amp1
            } else {
                q.amp0
            };
            let sq: Cx = comp.mul(comp);
            proof {
                assert(sq@ == squared_component(vec@[i as int], bs[n - 1 - i]));
                assert(amp_prefix(vec@, bs, (i + 1) as nat) == c_mul(
                    amp_prefix(vec@, bs, i as nat),
                    squared_component(vec@[i as int], bs[n - 1 - i]),
                ));
            }
            if sq.re > CX_MAX || sq.re < -CX_MAX || sq.im > CX_MAX || sq.im < -CX_MAX {
                proof {
                    assert(!amp_prefix_ok(vec@, bs, (i + 1) as nat));
                    lemma_amp_prefix_ok_fails(vec@, bs, (i + 1) as nat, n as nat);
                }
                return Err(QError::Overflow);
            }
            let next: Cx = acc.mul(sq);
            if next.re > CX_MAX || next.re < -CX_MAX || next.im > CX_MAX || next.im < -CX_MAX {
                proof {
                    assert(next@ == amp_prefix(vec@, bs, (i + 1) as nat));
                    assert(!amp_prefix_ok(vec@, bs, (i + 1) as nat));
                    lemma_amp_prefix_ok_fails(vec@, bs, (i + 1) as nat, n as nat);
                }
                return Err(QError::Overflow);
            }
            acc = next;
            i = i + 1;
        }
        Ok(acc)
    }

    /// The amplitudes of every basis outcome of the qubit list, in order.
    pub fn measurer(vec: &Vec<Qubit>) -> (r: Result<Vec<Cx>, QError>)
        requires
            1 <= vec@.len() <= QUBIT_MAX,
            forall|t: int| 0 <= t < vec@.len() ==> (#[trigger] vec@[t]).wf(),
        ensures
            match r {
                Ok(v) => {
                    &&& v@.len() == pow2(vec@.len() as nat)
                    &&& forall|d: int|
                        0 <= d < v@.len() ==> (#[trigger] v@[d])@ == amp_prefix(
                            vec@,
                            bits_of(d, vec@.len() as nat),
                            vec@.len() as nat,
                        )
                },
                Err(e) => {
                    &&& e == QError::Overflow
                    &&& exists|d: int|
                        0 <= d < pow2(vec@.len() as nat) && !amp_prefix_ok(
                            vec@,
                            #[trigger] bits_of(d, vec@.len() as nat),
                            vec@.len() as nat,
                        )
                },
            },
    {
        let n: usize = vec.len();
        let base: usize = pow2_checked(n);
        let mut out: Vec<Cx> = Vec::new();
        let mut d: usize = 0;
        while d < base
            invariant
                d <= base,
                n == vec@.len(),
                1 <= n <= QUBIT_MAX,
                base == pow2(n as nat),
                base <= 1048576,
                forall|t: int| 0 <= t < n ==> (#[trigger] vec@[t]).wf(),
                out@.len() == d,
                forall|u: int|
                    0 <= u < d ==> (#[trigger] out@[u])@ == amp_prefix(
                        vec@,
                        bits_of(u, n as nat),
                        n as nat,
                    ),
            decreases base - d,
        {
            let v: Cx = match QuantumCicuitry::get_amplitude(d as u64, vec) {
                Ok(v) => v,
                Err(e) => {
                    proof {
                        assert(0 <= d < pow2(vec@.len() as nat) && !amp_prefix_ok(
                            vec@,
                            bits_of(d as int, vec@.len() as nat),
                            vec@.len() as nat,
                        ));
                    }
                    return Err(QError::Overflow);
                },
            };
            out.push(v);
            d = d + 1;
        }
        Ok(out)
    }

    /// Reconstructing qubits from amplitudes is not modelled: two zero
    /// basis qubits are returned whatever the input.
    pub fn measurer_inverse(vec: Vec<Cx>) -> (r: Vec<Qubit>)
        ensures
            r@.len() == 2,
            r@[0].amp0@ == c_one(),
            r@[0].amp1@ == crate::scalar::c_zero(),
            r@[1].amp0@ == c_one(),
            r@[1].amp1@ == crate::scalar::c_zero(),
    {
        let mut out: Vec<Qubit> = Vec::new();
        out.push(Qubit::basis_0());
        out.push(Qubit::basis_0());
        out
    }
}

/// Once the bound fails at step k it fails for every longer prefix.
proof fn lemma_amp_prefix_ok_fails(qs: Seq<Qubit>, bits: Seq<bool>, k: nat, t: nat)
    requires
        k <= t,
        !amp_prefix_ok(qs, bits, k),
    ensures
        !amp_prefix_ok(qs, bits, t),
    decreases t,
{
    if t > k {
        lemma_amp_prefix_ok_fails(qs, bits, k, (t - 1) as nat);
    }
}

} // verus!
