//! Quantum circuits.
//!
//! A circuit is an ordered list of gates, each already lifted to act on
//! the full register. `add_gate` performs the lifting: it completes the
//! chosen input qubits to a permutation of all qubit positions, pads the
//! gate with an identity on the left, and conjugates with the permutation
//! gates, so that a lifted gate acts on exactly the chosen qubits in the order
//! given.

use vstd::prelude::*;

use vstd::arithmetic::power2::pow2;

use crate::bits::is_qubit_perm;
use crate::bits::perm_inv;
use crate::bits::qperm_map;
use crate::gate::mv_at;
use crate::gate::mv_norm_raw;
use crate::gate::QuantumGate;
use crate::matrix::mm_at;
use crate::matrix::mm_sum;
use crate::qubit::normalized_component;
use crate::register::QuantumRegister;
use crate::register::QUBIT_MAX;
use crate::scalar::c_add;
use crate::scalar::c_bounded;
use crate::scalar::c_mul;
use crate::scalar::c_one;
use crate::scalar::c_zero;
use crate::scalar::Cv;
use crate::scalar::CX_MAX;
use crate::unitary::SquareMatrix;
use crate::QError;

verus! {

/// An ordered list of gates on a fixed number of qubits.
#[derive(Clone, Debug)]
pub struct QuantumCircuit {
    pub n_qubits: usize,
    pub gates: Vec<QuantumGate>,
}

/// The input qubits extended to a permutation of all positions: the
/// missing indices below k are appended in ascending order.
pub open spec fn complete_rec(inp: Seq<usize>, k: nat) -> Seq<usize>
    decreases k,
{
    if k == 0 {
        inp
    } else {
        let prev = complete_rec(inp, (k - 1) as nat);
        if inp.contains((k - 1) as usize) {
            prev
        } else {
            prev.push((k - 1) as usize)
        }
    }
}

/// The entry a lifted gate holds: conjugating the identity-padded base
/// gate by the permutation of the completed qubit list sends (i, j) to
/// the padded entry at the permuted indices.
pub open spec fn lifted_at(base: QuantumGate, comp: Seq<usize>, i: int, j: int) -> Cv {
    let gi = qperm_map(perm_inv(comp), i);
    let gj = qperm_map(perm_inv(comp), j);
    let bs = base.spec_size();
    if gi / bs == gj / bs {
        base.at(gi % bs, gj % bs)
    } else {
        c_zero()
    }
}

/// g is the base gate lifted along the completed qubit list.
pub open spec fn is_lifted(g: QuantumGate, base: QuantumGate, comp: Seq<usize>, n: int) -> bool {
    &&& g.n_qubits == n
    &&& forall|i: int, j: int|
        0 <= i < g.spec_size() && 0 <= j < g.spec_size() ==> g.at(i, j) == lifted_at(
            base,
            comp,
            i,
            j,
        )
}

/// One gate application step: `to` is `from` transformed by one gate and
/// renormalized, with every intermediate component in bounds.
pub open spec fn step_rel(g: QuantumGate, from: QuantumRegister, to: QuantumRegister) -> bool {
    &&& to.n_qubits == from.n_qubits
    &&& to.spec_len() == from.spec_len()
    &&& mv_norm_raw(g.matrix, from, g.spec_size() as nat) > 0
    &&& forall|i: int|
        0 <= i < to.spec_len() ==> c_bounded(#[trigger] mv_at(g.matrix, from, i), CX_MAX as int)
    &&& forall|i: int|
        0 <= i < to.spec_len() ==> #[trigger] to.at(i) == (Cv {
            re: normalized_component(
                mv_at(g.matrix, from, i).re,
                mv_norm_raw(g.matrix, from, g.spec_size() as nat),
            ),
            im: normalized_component(
                mv_at(g.matrix, from, i).im,
                mv_norm_raw(g.matrix, from, g.spec_size() as nat),
            ),
        })
}

/// Running all listed gates takes `from` to `to`, one application at a time.
pub open spec fn runs_to(
    gates: Seq<QuantumGate>,
    from: QuantumRegister,
    to: QuantumRegister,
) -> bool
    decreases gates.len(),
{
    if gates.len() == 0 {
        &&& to.n_qubits == from.n_qubits
        &&& to.spec_len() == from.spec_len()
        &&& forall|i: int| 0 <= i < to.spec_len() ==> to.at(i) == from.at(i)
    } else {
        exists|mid: QuantumRegister|
            #[trigger] step_rel(gates[0], from, mid) && runs_to(gates.drop_first(), mid, to)
    }
}

/// Entry (i, j) of the product of the gates in application order (the
/// last gate applied is the leftmost factor); the empty product is the
/// identity.
pub open spec fn gates_prod_at(gs: Seq<QuantumGate>, size: int, i: int, j: int) -> Cv
    decreases gs.len(), 1int, 0int,
{
    if gs.len() == 0 {
        if i == j {
            c_one()
        } else {
            c_zero()
        }
    } else {
        gates_prod_sum(gs, size, i, j, size as nat)
    }
}

/// Partial sum over k of last(i, k) * (product of the rest)(k, j).
pub open spec fn gates_prod_sum(gs: Seq<QuantumGate>, size: int, i: int, j: int, hi: nat) -> Cv
    decreases gs.len(), 0int, hi,
{
    if gs.len() == 0 {
        c_zero()
    } else if hi == 0 {
        c_zero()
    } else {
        c_add(
            gates_prod_sum(gs, size, i, j, (hi - 1) as nat),
            c_mul(gs.last().at(i, hi - 1), gates_prod_at(gs.drop_last(), size, hi - 1, j)),
        )
    }
}

/// The product sum agrees with the matrix-product sum against any gate
/// whose entries match the partial product.
proof fn lemma_prod_sum_matches(
    g: QuantumGate,
    acc: QuantumGate,
    prefix: Seq<QuantumGate>,
    size: int,
    i: int,
    j: int,
    hi: nat,
)
    requires
        forall|k: int, j2: int|
            0 <= k < size && 0 <= j2 < size ==> acc.at(k, j2) == gates_prod_at(
                prefix,
                size,
                k,
                j2,
            ),
        hi <= size,
        0 <= j < size,
    ensures
        mm_sum(g.matrix.matrix, acc.matrix.matrix, i, j, hi) == gates_prod_sum(
            prefix.push(g),
            size,
            i,
            j,
            hi,
        ),
    decreases hi,
{
    assert(prefix.push(g).drop_last() =~= prefix);
    assert(prefix.push(g).last() == g);
    if hi > 0 {
        lemma_prod_sum_matches(g, acc, prefix, size, i, j, (hi - 1) as nat);
        assert(acc.at(hi - 1, j) == acc.matrix.matrix.at(hi - 1, j));
        assert(g.at(i, hi - 1) == g.matrix.matrix.at(i, hi - 1));
    }
}

impl QuantumCircuit {
    pub open spec fn wf(self) -> bool {
        &&& 1 <= self.n_qubits <= QUBIT_MAX
        &&& forall|t: int|
            0 <= t < self.gates.len() ==> (#[trigger] self.gates[t]).wf()
                && self.gates[t].n_qubits == self.n_qubits
    }

    pub open spec fn spec_size(self) -> int {
        pow2(self.n_qubits as nat) as int
    }

    /// An empty circuit on n qubits.
    pub fn new(n_qubits: usize) -> (c: QuantumCircuit)
        requires
            1 <= n_qubits <= QUBIT_MAX,
        ensures
            c.wf(),
            c.n_qubits == n_qubits,
            c.gates@.len() == 0,
    {
        QuantumCircuit { n_qubits, gates: Vec::new() }
    }

    /// A circuit holding exactly the given gate.
    pub fn singleton(gate: QuantumGate) -> (c: QuantumCircuit)
        requires
            gate.wf(),
        ensures
            c.wf(),
            c.n_qubits == gate.n_qubits,
            c.gates@.len() == 1,
            c.gates@[0] == gate,
    {
        let n: usize = gate.get_n_qubits();
        let mut gates: Vec<QuantumGate> = Vec::new();
        gates.push(gate);
        QuantumCircuit { n_qubits: n, gates }
    }

    pub fn n_gates(&self) -> (k: usize)
        ensures
            k == self.gates@.len(),
    {
        self.gates.len()
    }

    pub fn get_n_qubits(&self) -> (n: usize)
        ensures
            n == self.n_qubits,
    {
        self.n_qubits
    }

    /// Append another circuit's gates after this one's.
    pub fn extend(&mut self, other: QuantumCircuit)
        requires
            old(self).wf(),
            other.wf(),
            other.n_qubits == old(self).n_qubits,
        ensures
            final (self).wf(),
            final (self).n_qubits == old(self).n_qubits,
            final (self).gates@ == old(self).gates@ + other.gates@,
    {
        let ghost orig = self.gates@;
        let mut rest: Vec<QuantumGate> = other.gates;
        let total: usize = rest.len();
        let mut t: usize = 0;
        let ghost og = rest@;
        while t < total
            invariant
                t <= total,
                total == og.len(),
                rest@ == og.skip(t as int),
                self.gates@ == orig + og.take(t as int),
                self.wf(),
                old(self).wf(),
                self.n_qubits == old(self).n_qubits,
                forall|u: int|
                    0 <= u < og.len() ==> (#[trigger] og[u]).wf() && og[u].n_qubits
                        == self.n_qubits,
            decreases total - t,
        {
            let g: QuantumGate = rest.remove(0);
            proof {
                assert(og.skip(t as int)[0] == og[t as int]);
                assert(og.skip(t as int).remove(0) =~= og.skip(t + 1));
                assert(orig + og.take(t as int) + seq![og[t as int]] =~= orig + og.take(t + 1));
            }
            self.gates.push(g);
            t = t + 1;
        }
        proof {
            assert(og.take(total as int) =~= og);
        }
    }

    /// Apply each stored gate to the register in insertion order.
    pub fn run(&self, reg: &QuantumRegister) -> (r: Result<QuantumRegister, QError>)
        requires
            self.wf(),
            reg.wf(),
            reg.n_qubits == self.n_qubits,
        ensures
            match r {
                Ok(out) => {
                    &&& out.wf()
                    &&& out.n_qubits == self.n_qubits
                    &&& runs_to(self.gates@, *reg, out)
                },
                Err(e) => {
                    &&& (e == QError::Overflow || e == QError::ZeroNorm)
                    &&& exists|t: int, mid: QuantumRegister|
                        0 <= t < self.gates@.len() && #[trigger] runs_to(
                            self.gates@.take(t),
                            *reg,
                            mid,
                        ) && ((e == QError::Overflow ==> exists|i: int|
                            0 <= i < self.gates@[t].spec_size() && !c_bounded(
                                #[trigger] mv_at(self.gates@[t].matrix, mid, i),
                                CX_MAX as int,
                            )) && (e == QError::ZeroNorm ==> mv_norm_raw(
                            self.gates@[t].matrix,
                            mid,
                            self.gates@[t].spec_size() as nat,
                        ) == 0))
                },
            },
    {
        let mut cur: QuantumRegister = reg.duplicate();
        let total: usize = self.gates.len();
        let mut t: usize = 0;
        while t < total
            invariant
                t <= total,
                total == self.gates@.len(),
                self.wf(),
                reg.wf(),
                cur.wf(),
                cur.n_qubits == self.n_qubits,
                reg.n_qubits == self.n_qubits,
                runs_to(self.gates@.take(t as int), *reg, cur),
            decreases total - t,
        {
            let next = match self.gates[t].apply(&cur) {
                Ok(v) => v,
                Err(e) => {
                    proof {
                        assert(0 <= t < self.gates@.len() && runs_to(
                            self.gates@.take(t as int),
                            *reg,
                            cur,
                        ));
                    }
                    return Err(e);
                },
            };
            proof {
                lemma_runs_to_snoc(self.gates@.take(t as int), self.gates@[t as int], *reg, cur, next);
                assert(self.gates@.take(t as int).push(self.gates@[t as int]) =~= self.gates@.take(
                    t + 1,
                ));
            }
            cur = next;
            t = t + 1;
        }
        proof {
            assert(self.gates@.take(total as int) =~= self.gates@);
        }
        Ok(cur)
    }

    /// Compose all stored gates into the single gate equal to their
    /// product in application order.
    pub fn as_gate(&self) -> (r: Result<QuantumGate, QError>)
        requires
            self.wf(),
        ensures
            match r {
                Ok(g) => {
                    &&& g.wf()
                    &&& g.n_qubits == self.n_qubits
                    &&& forall|i: int, j: int|
                        0 <= i < g.spec_size() && 0 <= j < g.spec_size() ==> g.at(i, j)
                            == gates_prod_at(self.gates@, g.spec_size(), i, j)
                },
                Err(e) => {
                    &&& e == QError::Overflow
                    &&& exists|t: int, i: int, k: int|
                        0 <= t < self.gates@.len() && 0 <= i < self.spec_size() && 0 <= k
                            < self.spec_size() && !c_bounded(
                            #[trigger] gates_prod_at(self.gates@.take(t + 1), self.spec_size(), i, k),
                            CX_MAX as int,
                        )
                },
            },
    {
        let mut acc: QuantumGate = QuantumGate::identity(self.n_qubits);
        let ghost size = acc.spec_size();
        proof {
            assert(size == self.spec_size());
        }
        let total: usize = self.gates.len();
        let mut t: usize = 0;
        proof {
            assert(self.gates@.take(0) =~= Seq::<QuantumGate>::empty());
        }
        while t < total
            invariant
                t <= total,
                total == self.gates@.len(),
                self.wf(),
                acc.wf(),
                acc.n_qubits == self.n_qubits,
                size == acc.spec_size(),
                forall|i: int, j: int|
                    0 <= i < size && 0 <= j < size ==> acc.at(i, j) == gates_prod_at(
                        self.gates@.take(t as int),
                        size,
                        i,
                        j,
                    ),
            decreases total - t,
        {
            let g: &QuantumGate = &self.gates[t];
            let next = match g.compose(&acc) {
                Ok(v) => v,
                Err(e) => {
                    proof {
                        let (i2, k2) = choose|i2: int, k2: int|
                            0 <= i2 < g.spec_size() && 0 <= k2 < g.spec_size() && !c_bounded(
                                #[trigger] mm_at(g.matrix.matrix, acc.matrix.matrix, i2, k2),
                                CX_MAX as int,
                            );
                        lemma_prod_sum_matches(
                            *g,
                            acc,
                            self.gates@.take(t as int),
                            size,
                            i2,
                            k2,
                            size as nat,
                        );
                        assert(self.gates@.take(t as int).push(self.gates@[t as int])
                            =~= self.gates@.take(t + 1));
                        assert(0 <= t < self.gates@.len() && 0 <= i2 < self.spec_size() && 0 <= k2
                            < self.spec_size() && !c_bounded(
                            gates_prod_at(self.gates@.take(t + 1), self.spec_size(), i2, k2),
                            CX_MAX as int,
                        ));
                    }
                    return Err(e);
                },
            };
            proof {
                assert forall|i: int, j: int| 0 <= i < size && 0 <= j < size implies next.at(i, j)
                    == gates_prod_at(self.gates@.take(t + 1), size, i, j) by {
                    lemma_prod_sum_matches(
                        *g,
                        acc,
                        self.gates@.take(t as int),
                        size,
                        i,
                        j,
                        size as nat,
                    );
                    assert(self.gates@.take(t as int).push(self.gates@[t as int]) =~= self.gates@
                        .take(t + 1));
                }
            }
            acc = next;
            t = t + 1;
        }
        proof {
            assert(self.gates@.take(total as int) =~= self.gates@);
        }
        Ok(acc)
    }
}

/// Extending a successful run by one more successful application.
proof fn lemma_runs_to_snoc(
    gs: Seq<QuantumGate>,
    g: QuantumGate,
    from: QuantumRegister,
    mid: QuantumRegister,
    to: QuantumRegister,
)
    requires
        runs_to(gs, from, mid),
        step_rel(g, mid, to),
    ensures
        runs_to(gs.push(g), from, to),
    decreases gs.len(),
{
    if gs.len() == 0 {
        assert(gs.push(g)[0] == g);
        assert(gs.push(g).drop_first() =~= Seq::<QuantumGate>::empty());
        assert(step_rel(g, from, to)) by {
            lemma_step_rel_congruence(g, mid, from, to);
        }
        assert(runs_to(gs.push(g).drop_first(), to, to));
        assert(step_rel(gs.push(g)[0], from, to) && runs_to(gs.push(g).drop_first(), to, to));
    } else {
        let m1 = choose|m: QuantumRegister|
            #[trigger] step_rel(gs[0], from, m) && runs_to(gs.drop_first(), m, mid);
        lemma_runs_to_snoc(gs.drop_first(), g, m1, mid, to);
        assert(gs.push(g)[0] == gs[0]);
        assert(gs.push(g).drop_first() =~= gs.drop_first().push(g));
        assert(step_rel(gs.push(g)[0], from, m1) && runs_to(gs.push(g).drop_first(), m1, to));
    }
}

proof fn lemma_step_rel_congruence(
    g: QuantumGate,
    a: QuantumRegister,
    b: QuantumRegister,
    to: QuantumRegister,
)
    requires
        step_rel(g, a, to),
        a.n_qubits == b.n_qubits,
        a.spec_len() == b.spec_len(),
        forall|i: int| 0 <= i < a.spec_len() ==> a.at(i) == b.at(i),
    ensures
        step_rel(g, b, to),
{
    lemma_mv_congruence(g.matrix, a, b, g.spec_size() as nat);
}

/// Matrix-vector products agree on registers with equal amplitudes.
proof fn lemma_mv_congruence(m: SquareMatrix, a: QuantumRegister, b: QuantumRegister, hi: nat)
    requires
        a.spec_len() == b.spec_len(),
        forall|i: int| 0 <= i < a.spec_len() ==> a.at(i) == b.at(i),
    ensures
        forall|i: int|
            #![trigger mv_at(m, a, i)]
            #![trigger mv_at(m, b, i)]
            mv_at(m, a, i) == mv_at(m, b, i),
        mv_norm_raw(m, a, hi) == mv_norm_raw(m, b, hi),
    decreases hi,
{
    assert forall|i: int| true implies #[trigger] mv_at(m, a, i) == mv_at(m, b, i) by {
        lemma_mv_sum_congruence(m, a, b, i, m.spec_size() as nat);
    }
    if hi > 0 {
        lemma_mv_congruence(m, a, b, (hi - 1) as nat);
    }
}

proof fn lemma_mv_sum_congruence(
    m: SquareMatrix,
    a: QuantumRegister,
    b: QuantumRegister,
    i: int,
    hi: nat,
)
    requires
        a.spec_len() == b.spec_len(),
        forall|i2: int| 0 <= i2 < a.spec_len() ==> a.at(i2) == b.at(i2),
    ensures
        crate::gate::mv_sum(m, a, i, hi) == crate::gate::mv_sum(m, b, i, hi),
    decreases hi,
{
    if hi > 0 {
        lemma_mv_sum_congruence(m, a, b, i, (hi - 1) as nat);
        if 0 <= hi - 1 < a.spec_len() {
        } else {
            assert(a.at(hi - 1) == c_zero() && b.at(hi - 1) == c_zero());
        }
    }
}

} // verus!

verus! {

/// The entry the identity-padded base gate holds at (r, c): the base's
/// entry when both indices fall in the same block, zero otherwise.
pub open spec fn padded_at(base: QuantumGate, r: int, c: int) -> Cv {
    let bs = base.spec_size();
    if r / bs == c / bs {
        base.at(r % bs, c % bs)
    } else {
        c_zero()
    }
}

/// Multiplying any well-formed matrix by a permutation gate on the right
/// keeps every product entry within the stored bound: each entry is one
/// entry of the left factor.
proof fn lemma_mm_right_perm_bounded(pre: QuantumGate, p: QuantumGate, comp: Seq<usize>, n: int)
    requires
        1 <= n <= QUBIT_MAX,
        is_qubit_perm(comp, n),
        p.wf(),
        pre.wf(),
        p.n_qubits == n,
        pre.spec_size() == p.spec_size(),
        forall|b: int, c: int|
            0 <= b < p.spec_size() && 0 <= c < p.spec_size() ==> p.at(b, c) == (if c == qperm_map(
                comp,
                b,
            ) {
                c_one()
            } else {
                c_zero()
            }),
    ensures
        forall|i: int, k: int|
            0 <= i < p.spec_size() && 0 <= k < p.spec_size() ==> c_bounded(
                #[trigger] mm_at(pre.matrix.matrix, p.matrix.matrix, i, k),
                CX_MAX as int,
            ),
{
    let size = p.spec_size();
    let inv = perm_inv(comp);
    crate::bits::lemma_perm_inv_props(comp, n);
    let pmap = Seq::new(size as nat, |b: int| qperm_map(comp, b) as usize);
    assert forall|a2: int, b2: int|
        0 <= a2 < size && 0 <= b2 < size implies p.matrix.matrix.at(a2, b2) == (if b2 == pmap[a2] {
        c_one()
    } else {
        c_zero()
    }) by {
        crate::bits::lemma_qperm_map_bound(comp, a2, n);
        assert(p.at(a2, b2) == p.matrix.matrix.at(a2, b2));
    }
    assert forall|i: int, k: int| 0 <= i < size && 0 <= k < size implies c_bounded(
        #[trigger] mm_at(pre.matrix.matrix, p.matrix.matrix, i, k),
        CX_MAX as int,
    ) by {
        let j0 = qperm_map(inv, k);
        crate::bits::lemma_qperm_map_bound(inv, k, n);
        crate::bits::lemma_qperm_map_inverse(inv, comp, k, n);
        assert(pmap[j0] as int == qperm_map(comp, j0)) by {
            crate::bits::lemma_qperm_map_bound(comp, j0, n);
        }
        assert forall|a2: int| 0 <= a2 < size && a2 != j0 implies pmap[a2] as int != k by {
            crate::bits::lemma_qperm_map_bound(comp, a2, n);
            if pmap[a2] as int == k {
                crate::bits::lemma_qperm_map_injective(comp, a2, j0, n);
            }
        }
        crate::unitary::lemma_matrix_times_perm(
            pre.matrix.matrix,
            p.matrix.matrix,
            pmap,
            i,
            k,
            j0,
        );
        pre.matrix.matrix.lemma_at_bounded(i, j0);
    }
}

/// Multiplying by a permutation gate on the left likewise keeps every
/// product entry within the stored bound.
proof fn lemma_mm_left_perm_bounded(rp: QuantumGate, t2: QuantumGate, comp: Seq<usize>, n: int)
    requires
        1 <= n <= QUBIT_MAX,
        is_qubit_perm(comp, n),
        rp.wf(),
        t2.wf(),
        rp.n_qubits == n,
        t2.spec_size() == rp.spec_size(),
        forall|b: int, c: int|
            0 <= b < rp.spec_size() && 0 <= c < rp.spec_size() ==> rp.at(b, c) == (if c
                == qperm_map(perm_inv(comp), b) {
                c_one()
            } else {
                c_zero()
            }),
    ensures
        forall|i: int, k: int|
            0 <= i < rp.spec_size() && 0 <= k < rp.spec_size() ==> c_bounded(
                #[trigger] mm_at(rp.matrix.matrix, t2.matrix.matrix, i, k),
                CX_MAX as int,
            ),
{
    let size = rp.spec_size();
    let inv = perm_inv(comp);
    crate::bits::lemma_perm_inv_props(comp, n);
    let rmap = Seq::new(size as nat, |b: int| qperm_map(inv, b) as usize);
    assert forall|a2: int, b2: int|
        0 <= a2 < size && 0 <= b2 < size implies rp.matrix.matrix.at(a2, b2) == (if b2
        == rmap[a2] {
        c_one()
    } else {
        c_zero()
    }) by {
        crate::bits::lemma_qperm_map_bound(inv, a2, n);
        assert(rp.at(a2, b2) == rp.matrix.matrix.at(a2, b2));
    }
    assert forall|i: int, k: int| 0 <= i < size && 0 <= k < size implies c_bounded(
        #[trigger] mm_at(rp.matrix.matrix, t2.matrix.matrix, i, k),
        CX_MAX as int,
    ) by {
        crate::bits::lemma_qperm_map_bound(inv, i, n);
        crate::unitary::lemma_perm_times_matrix(rp.matrix.matrix, t2.matrix.matrix, rmap, i, k);
        t2.matrix.matrix.lemma_at_bounded(rmap[i] as int, k);
    }
}

/// Pad a gate to n qubits with an identity on the left and multiply by
/// the permutation gate on the right. Entry (r, j) of the result is the
/// padded entry at (r, j') where j' is the position the permutation sends
/// to column j.
fn pad_and_multiply(
    gate: &QuantumGate,
    p: &QuantumGate,
    n: usize,
    Ghost(comp): Ghost<Seq<usize>>,
) -> (v: QuantumGate)
    requires
        gate.wf(),
        p.wf(),
        p.n_qubits == n,
        1 <= gate.n_qubits <= n,
        n <= QUBIT_MAX,
        is_qubit_perm(comp, n as int),
        forall|b: int, c: int|
            0 <= b < p.spec_size() && 0 <= c < p.spec_size() ==> p.at(b, c) == (if c == qperm_map(
                comp,
                b,
            ) {
                c_one()
            } else {
                c_zero()
            }),
    ensures
        v.wf(),
        v.n_qubits == n,
        forall|r2: int, j2: int|
            0 <= r2 < v.spec_size() && 0 <= j2 < v.spec_size() ==> v.at(r2, j2) == padded_at(
                *gate,
                r2,
                qperm_map(perm_inv(comp), j2),
            ),
{
    let k: usize = gate.get_n_qubits();
    let ghost size = p.spec_size();
    proof {
        crate::bits::lemma_perm_inv_props(comp, n as int);
    }
    let t2: QuantumGate = if k < n {
        let idg = QuantumGate::identity(n - k);
        let padded = match idg.tensor_product(gate) {
            Ok(v) => v,
            Err(e) => {
                proof {
                    let bs = gate.spec_size();
                    let ids = idg.spec_size();
                    let (i, j) = choose|i: int, j: int|
                        0 <= i < idg.spec_size() * gate.spec_size() && 0 <= j < idg.spec_size()
                            * gate.spec_size() && !c_bounded(
                            #[trigger] c_mul(
                                idg.at(i / gate.spec_size(), j / gate.spec_size()),
                                gate.at(i % gate.spec_size(), j % gate.spec_size()),
                            ),
                            CX_MAX as int,
                        );
                    assert(0 <= i / bs < ids && 0 <= j / bs < ids && 0 <= i % bs < bs && 0 <= j
                        % bs < bs) by (nonlinear_arith)
                        requires
                            0 <= i < ids * bs,
                            0 <= j < ids * bs,
                            bs >= 1,
                            ids >= 1,
                    ;
                    gate.matrix.matrix.lemma_at_bounded(i % bs, j % bs);
                    if i / bs == j / bs {
                        crate::scalar::lemma_c_mul_one(gate.at(i % bs, j % bs));
                    } else {
                        crate::scalar::lemma_c_mul_zero(gate.at(i % bs, j % bs));
                    }
                    assert(false);
                }
                vstd::pervasive::unreached()
            },
        };
        proof {
            vstd::arithmetic::power2::lemma_pow2_adds((n - k) as nat, k as nat);
            assert forall|r2: int, c3: int|
                0 <= r2 < size && 0 <= c3 < size implies padded.at(r2, c3) == padded_at(
                *gate,
                r2,
                c3,
            ) by {
                let bs = gate.spec_size();
                let ids = idg.spec_size();
                assert(0 <= r2 / bs < ids && 0 <= c3 / bs < ids && 0 <= r2 % bs < bs && 0 <= c3
                    % bs < bs) by (nonlinear_arith)
                    requires
                        0 <= r2 < ids * bs,
                        0 <= c3 < ids * bs,
                        bs >= 1,
                        ids >= 1,
                ;
                if r2 / bs == c3 / bs {
                    crate::scalar::lemma_c_mul_one(gate.at(r2 % bs, c3 % bs));
                } else {
                    crate::scalar::lemma_c_mul_zero(gate.at(r2 % bs, c3 % bs));
                }
            }
        }
        let v = match padded.compose(p) {
            Ok(v) => v,
            Err(e) => {
                proof {
                    lemma_mm_right_perm_bounded(padded, *p, comp, n as int);
                    assert(false);
                }
                vstd::pervasive::unreached()
            },
        };
        proof {
            lemma_right_perm_collapse(v, padded, *p, *gate, comp, n as int);
        }
        v
    } else {
        proof {
            assert forall|r2: int, c3: int|
                0 <= r2 < size && 0 <= c3 < size implies gate.at(r2, c3) == padded_at(
                *gate,
                r2,
                c3,
            ) by {
                let bs = gate.spec_size();
                assert(r2 / bs == 0 && c3 / bs == 0) by (nonlinear_arith)
                    requires
                        0 <= r2 < bs,
                        0 <= c3 < bs,
                ;
                vstd::arithmetic::div_mod::lemma_small_mod(r2 as nat, bs as nat);
                vstd::arithmetic::div_mod::lemma_small_mod(c3 as nat, bs as nat);
            }
        }
        let v = match gate.compose(p) {
            Ok(v) => v,
            Err(e) => {
                proof {
                    lemma_mm_right_perm_bounded(*gate, *p, comp, n as int);
                    assert(false);
                }
                vstd::pervasive::unreached()
            },
        };
        proof {
            lemma_right_perm_collapse(v, *gate, *p, *gate, comp, n as int);
        }
        v
    };
    t2
}

/// Collapsing the right permutation factor: where `pre` holds the padded
/// entries and `v` is pre times the permutation gate of comp, entry
/// (r, j) of v is the padded entry at (r, inverse-image of j).
proof fn lemma_right_perm_collapse(
    v: QuantumGate,
    pre: QuantumGate,
    p: QuantumGate,
    base: QuantumGate,
    comp: Seq<usize>,
    n: int,
)
    requires
        1 <= n <= QUBIT_MAX,
        is_qubit_perm(comp, n),
        p.wf(),
        pre.wf(),
        v.wf(),
        p.n_qubits == n,
        pre.spec_size() == p.spec_size(),
        v.spec_size() == p.spec_size(),
        forall|b: int, c: int|
            0 <= b < p.spec_size() && 0 <= c < p.spec_size() ==> p.at(b, c) == (if c == qperm_map(
                comp,
                b,
            ) {
                c_one()
            } else {
                c_zero()
            }),
        forall|r2: int, c3: int|
            0 <= r2 < pre.spec_size() && 0 <= c3 < pre.spec_size() ==> pre.at(r2, c3) == padded_at(
                base,
                r2,
                c3,
            ),
        forall|i: int, j: int|
            0 <= i < v.spec_size() && 0 <= j < v.spec_size() ==> v.at(i, j) == mm_at(
                pre.matrix.matrix,
                p.matrix.matrix,
                i,
                j,
            ),
    ensures
        forall|r2: int, j2: int|
            0 <= r2 < v.spec_size() && 0 <= j2 < v.spec_size() ==> v.at(r2, j2) == padded_at(
                base,
                r2,
                qperm_map(perm_inv(comp), j2),
            ),
{
    let size = p.spec_size();
    let inv = perm_inv(comp);
    crate::bits::lemma_perm_inv_props(comp, n);
    let pmap = Seq::new(size as nat, |b: int| qperm_map(comp, b) as usize);
    assert forall|a2: int, b2: int|
        0 <= a2 < size && 0 <= b2 < size implies p.matrix.matrix.at(a2, b2) == (if b2 == pmap[a2] {
        c_one()
    } else {
        c_zero()
    }) by {
        crate::bits::lemma_qperm_map_bound(comp, a2, n);
        assert(p.at(a2, b2) == p.matrix.matrix.at(a2, b2));
    }
    assert forall|r2: int, j2: int|
        0 <= r2 < v.spec_size() && 0 <= j2 < v.spec_size() implies v.at(r2, j2) == padded_at(
        base,
        r2,
        qperm_map(inv, j2),
    ) by {
        let j0 = qperm_map(inv, j2);
        crate::bits::lemma_qperm_map_bound(inv, j2, n);
        crate::bits::lemma_qperm_map_inverse(inv, comp, j2, n);
        assert(pmap[j0] as int == qperm_map(comp, j0)) by {
            crate::bits::lemma_qperm_map_bound(comp, j0, n);
        }
        assert(qperm_map(comp, j0) == j2);
        assert forall|a2: int| 0 <= a2 < size && a2 != j0 implies pmap[a2] as int != j2 by {
            crate::bits::lemma_qperm_map_bound(comp, a2, n);
            if pmap[a2] as int == j2 {
                crate::bits::lemma_qperm_map_injective(comp, a2, j0, n);
            }
        }
        crate::unitary::lemma_matrix_times_perm(
            pre.matrix.matrix,
            p.matrix.matrix,
            pmap,
            r2,
            j2,
            j0,
        );
        assert(pre.matrix.matrix.at(r2, j0) == pre.at(r2, j0));
    }
}

impl QuantumCircuit {
    /// Lift a gate to the full register and append it: complete the input
    /// qubits to a permutation of all positions (missing indices appended
    /// ascending), pad it with an identity on the left, and wrap it
    /// between the permutation gate and its reverse. The stored gate acts
    /// on exactly the chosen qubits in the order given.
    pub fn add_gate(&mut self, gate: &QuantumGate, input_qubits: &Vec<usize>)
        requires
            old(self).wf(),
            gate.wf(),
            gate.n_qubits == input_qubits@.len(),
            gate.n_qubits <= old(self).n_qubits,
            forall|t: int|
                0 <= t < input_qubits@.len() ==> (#[trigger] input_qubits@[t]) < old(
                    self,
                ).n_qubits,
            forall|t1: int, t2: int|
                0 <= t1 < t2 < input_qubits@.len() ==> input_qubits@[t1] != input_qubits@[t2],
        ensures
            final (self).wf(),
            final (self).n_qubits == old(self).n_qubits,
            final (self).gates@.len() == old(self).gates@.len() + 1,
            final (self).gates@.take(old(self).gates@.len() as int) == old(self).gates@,
            is_lifted(
                final (self).gates@.last(),
                *gate,
                complete_rec(input_qubits@, old(self).n_qubits as nat),
                old(self).n_qubits as int,
            ),
    {
        let n: usize = self.n_qubits;
        let ghost inp = input_qubits@;
        let mut completed: Vec<usize> = Vec::new();
        let mut idx: usize = 0;
        while idx < input_qubits.len()
            invariant
                idx <= inp.len(),
                inp == input_qubits@,
                completed@ == inp.take(idx as int),
            decreases inp.len() - idx,
        {
            completed.push(input_qubits[idx]);
            proof {
                assert(inp.take(idx as int).push(inp[idx as int]) =~= inp.take(idx + 1));
            }
            idx = idx + 1;
        }
        proof {
            assert(inp.take(inp.len() as int) =~= inp);
        }
        let mut seen: Vec<bool> = Vec::new();
        let mut z: usize = 0;
        while z < n
            invariant
                z <= n,
                seen@.len() == z,
                forall|t: int| 0 <= t < z ==> !(#[trigger] seen@[t]),
            decreases n - z,
        {
            seen.push(false);
            z = z + 1;
        }
        let mut idx2: usize = 0;
        while idx2 < input_qubits.len()
            invariant
                idx2 <= inp.len(),
                inp == input_qubits@,
                seen@.len() == n,
                forall|t: int| 0 <= t < inp.len() ==> (#[trigger] inp[t]) < n,
                forall|t: int|
                    0 <= t < n ==> #[trigger] seen@[t] == exists|u: int|
                        0 <= u < idx2 && inp[u] as int == t,
            decreases inp.len() - idx2,
        {
            let q: usize = input_qubits[idx2];
            seen[q] = true;
            proof {
                assert forall|t: int| 0 <= t < n implies #[trigger] seen@[t] == exists|u: int|
                    0 <= u < idx2 + 1 && inp[u] as int == t by {
                    if t == q as int {
                        assert(inp[idx2 as int] as int == t);
                    } else {
                        if exists|u: int| 0 <= u < idx2 && inp[u] as int == t {
                            let u = choose|u: int| 0 <= u < idx2 && inp[u] as int == t;
                            assert(0 <= u < idx2 + 1 && inp[u] as int == t);
                        } else if exists|u: int| 0 <= u < idx2 + 1 && inp[u] as int == t {
                            let u = choose|u: int| 0 <= u < idx2 + 1 && inp[u] as int == t;
                            assert(u < idx2);
                        }
                    }
                }
            }
            idx2 = idx2 + 1;
        }
        let mut t: usize = 0;
        while t < n
            invariant
                t <= n,
                inp == input_qubits@,
                n == self.n_qubits,
                seen@.len() == n,
                forall|u: int| 0 <= u < inp.len() ==> (#[trigger] inp[u]) < n,
                forall|u1: int, u2: int| 0 <= u1 < u2 < inp.len() ==> inp[u1] != inp[u2],
                forall|u: int|
                    0 <= u < n ==> #[trigger] seen@[u] == exists|w: int|
                        0 <= w < inp.len() && inp[w] as int == u,
                completed@ == complete_rec(inp, t as nat),
                completed@.len() >= inp.len(),
                completed@.take(inp.len() as int) == inp,
                forall|u: int| 0 <= u < completed@.len() ==> (#[trigger] completed@[u]) < n,
                forall|u1: int, u2: int|
                    0 <= u1 < u2 < completed@.len() ==> completed@[u1] != completed@[u2],
                forall|u: int|
                    inp.len() <= u < completed@.len() ==> ((#[trigger] completed@[u]) as int) < t,
                forall|u: int| 0 <= u < t ==> #[trigger] crate::bits::seq_covers(completed@, u),
            decreases n - t,
        {
            let ghost old_completed = completed@;
            proof {
                assert(seen@[t as int] == inp.contains(t as usize)) by {
                    if inp.contains(t as usize) {
                        let w = choose|w: int| 0 <= w < inp.len() && inp[w] == t as usize;
                        assert(inp[w] as int == t as int);
                    }
                    if exists|w: int| 0 <= w < inp.len() && inp[w] as int == t as int {
                        let w = choose|w: int| 0 <= w < inp.len() && inp[w] as int == t as int;
                        assert(inp[w] == t as usize);
                    }
                }
            }
            if !seen[t] {
                completed.push(t);
                proof {
                    assert(completed@.take(inp.len() as int) =~= old_completed.take(
                        inp.len() as int,
                    ));
                    assert forall|u1: int, u2: int|
                        0 <= u1 < u2 < completed@.len() implies completed@[u1]
                        != completed@[u2] by {
                        if u2 == completed@.len() - 1 {
                            assert(completed@[u2] == t as usize);
                            if u1 < inp.len() {
                                assert(old_completed.take(inp.len() as int)[u1] == inp[u1]);
                                assert(completed@[u1] == inp[u1]);
                                if inp[u1] as int == t as int {
                                    assert(seen@[t as int]);
                                    assert(false);
                                }
                            } else {
                                assert(((old_completed[u1]) as int) < t);
                            }
                        }
                    }
                    assert forall|u: int|
                        0 <= u < t + 1 implies #[trigger] crate::bits::seq_covers(
                        completed@,
                        u,
                    ) by {
                        if u < t {
                            assert(crate::bits::seq_covers(old_completed, u));
                            let w = choose|w: int|
                                0 <= w < old_completed.len() && (#[trigger] old_completed[w]) as int
                                    == u;
                            assert(completed@[w] as int == u);
                        } else {
                            assert(completed@[completed@.len() - 1] as int == u);
                        }
                    }
                }
            } else {
                proof {
                    assert forall|u: int|
                        0 <= u < t + 1 implies #[trigger] crate::bits::seq_covers(
                        completed@,
                        u,
                    ) by {
                        if u < t {
                        } else {
                            let w = choose|w: int| 0 <= w < inp.len() && inp[w] as int == u;
                            assert(completed@.take(inp.len() as int)[w] == inp[w]);
                            assert(completed@[w] as int == u);
                        }
                    }
                }
            }
            t = t + 1;
        }
        proof {
            crate::bits::lemma_covering_perm_len(completed@, n as int);
        }
        let ghost comp = completed@;
        let ghost inv = perm_inv(comp);
        let mut completed2: Vec<usize> = Vec::new();
        let mut c2: usize = 0;
        while c2 < completed.len()
            invariant
                c2 <= comp.len(),
                comp == completed@,
                completed2@ == comp.take(c2 as int),
            decreases comp.len() - c2,
        {
            completed2.push(completed[c2]);
            proof {
                assert(comp.take(c2 as int).push(comp[c2 as int]) =~= comp.take(c2 + 1));
            }
            c2 = c2 + 1;
        }
        proof {
            assert(comp.take(comp.len() as int) =~= comp);
            crate::bits::lemma_perm_inv_props(comp, n as int);
        }
        let p: QuantumGate = QuantumGate::permutation(completed);
        let rp: QuantumGate = QuantumGate::reverse_permutation(completed2);
        let ghost size = p.spec_size();
        let t2: QuantumGate = pad_and_multiply(gate, &p, n, Ghost(comp));
        let stored: QuantumGate = match rp.compose(&t2) {
            Ok(v) => v,
            Err(e) => {
                proof {
                    lemma_mm_left_perm_bounded(rp, t2, comp, n as int);
                    assert(false);
                }
                vstd::pervasive::unreached()
            },
        };
        proof {
            let rmap = Seq::new(size as nat, |b: int| qperm_map(inv, b) as usize);
            assert forall|a2: int, b2: int|
                0 <= a2 < size && 0 <= b2 < size implies rp.matrix.matrix.at(a2, b2) == (if b2
                == rmap[a2] {
                c_one()
            } else {
                c_zero()
            }) by {
                crate::bits::lemma_qperm_map_bound(inv, a2, n as int);
                assert(rp.at(a2, b2) == rp.matrix.matrix.at(a2, b2));
            }
            assert forall|i: int, j: int|
                0 <= i < size && 0 <= j < size implies stored.at(i, j) == lifted_at(
                *gate,
                comp,
                i,
                j,
            ) by {
                crate::bits::lemma_qperm_map_bound(inv, i, n as int);
                crate::unitary::lemma_perm_times_matrix(
                    rp.matrix.matrix,
                    t2.matrix.matrix,
                    rmap,
                    i,
                    j,
                );
                assert(t2.matrix.matrix.at(rmap[i] as int, j) == t2.at(qperm_map(inv, i), j));
            }
        }
        let ghost old_gates = self.gates@;
        self.gates.push(stored);
        proof {
            assert(self.gates@.take(old_gates.len() as int) =~= old_gates);
            assert(self.gates@.last() == stored);
        }
    }
}

} // verus!

verus! {

/// The qubit reversal permutation: position s goes to n - 1 - s.
fn reversal_perm(n: usize) -> (r: Vec<usize>)
    requires
        1 <= n,
    ensures
        r@.len() == n,
        is_qubit_perm(r@, n as int),
        forall|s: int| 0 <= s < n ==> (#[trigger] r@[s]) as int == n - 1 - s,
{
    let mut rev: Vec<usize> = Vec::new();
    let mut s: usize = 0;
    while s < n
        invariant
            s <= n,
            rev@.len() == s,
            forall|u: int| 0 <= u < s ==> (#[trigger] rev@[u]) as int == n - 1 - u,
        decreases n - s,
    {
        rev.push(n - 1 - s);
        s = s + 1;
    }
    rev
}

/// The qubit reversal permutation as a sequence.
pub open spec fn reversal_seq(n: int) -> Seq<usize> {
    Seq::new(n as nat, |s: int| (n - 1 - s) as usize)
}

/// The entries of the Hadamard base matrix.
pub open spec fn h_base_at(i: int, j: int) -> Cv {
    if (i == 0 || i == 1) && (j == 0 || j == 1) {
        if i == 1 && j == 1 {
            crate::scalar::c_neg(crate::gate::inv_sqrt2_v())
        } else {
            crate::gate::inv_sqrt2_v()
        }
    } else {
        c_zero()
    }
}

/// The entries of the controlled-phase-shift base matrix for the angle
/// tau * num / 2^p.
pub open spec fn cps_base_at(num: int, p: nat, i: int, j: int) -> Cv {
    if i == j && 0 <= i < 4 {
        if i == 3 {
            crate::phase::phase_v(num, p)
        } else {
            c_one()
        }
    } else {
        c_zero()
    }
}

/// g is the Hadamard on qubit position s, lifted to n qubits.
pub open spec fn is_h_gate(g: QuantumGate, s: int, n: int) -> bool {
    let comp = complete_rec(seq![s as usize], n as nat);
    &&& g.n_qubits == n
    &&& forall|i: int, j: int|
        0 <= i < g.spec_size() && 0 <= j < g.spec_size() ==> g.at(i, j) == {
            let gi = qperm_map(perm_inv(comp), i);
            let gj = qperm_map(perm_inv(comp), j);
            if gi / 2 == gj / 2 {
                h_base_at(gi % 2, gj % 2)
            } else {
                c_zero()
            }
        }
}

/// g is the controlled phase shift by tau * num / 2^(ctrl - tgt + 1),
/// with control qubit ctrl and target qubit tgt, lifted to n qubits.
pub open spec fn is_cps_gate(g: QuantumGate, num: int, ctrl: int, tgt: int, n: int) -> bool {
    let comp = complete_rec(seq![ctrl as usize, tgt as usize], n as nat);
    let p = (ctrl - tgt + 1) as nat;
    &&& g.n_qubits == n
    &&& forall|i: int, j: int|
        0 <= i < g.spec_size() && 0 <= j < g.spec_size() ==> g.at(i, j) == {
            let gi = qperm_map(perm_inv(comp), i);
            let gj = qperm_map(perm_inv(comp), j);
            if gi / 4 == gj / 4 {
                cps_base_at(num, p, gi % 4, gj % 4)
            } else {
                c_zero()
            }
        }
}

/// g is the bit-reversal permutation over all n qubits.
pub open spec fn is_rev_gate(g: QuantumGate, n: int) -> bool {
    &&& g.n_qubits == n
    &&& forall|b: int, c: int|
        0 <= b < g.spec_size() && 0 <= c < g.spec_size() ==> g.at(b, c) == (if c == qperm_map(
            reversal_seq(n),
            b,
        ) {
            c_one()
        } else {
            c_zero()
        })
}

/// Where block s of the Fourier circuit begins: one reversal gate, then
/// n - u gates for each earlier block u.
pub open spec fn qft_block_start(n: int, s: int) -> int
    decreases s,
{
    if s <= 0 {
        1
    } else {
        qft_block_start(n, s - 1) + (n - (s - 1))
    }
}

/// Where block t of the inverse Fourier circuit begins: u + 1 gates for
/// each earlier block u.
pub open spec fn iqft_block_start(t: int) -> int
    decreases t,
{
    if t <= 0 {
        0
    } else {
        iqft_block_start(t - 1) + t
    }
}

/// Earlier Fourier blocks end before later blocks begin.
proof fn lemma_qft_start_props(n: int, s: int)
    requires
        0 <= s <= n,
    ensures
        forall|u: int|
            0 <= u < s ==> #[trigger] qft_block_start(n, u) + (n - u) <= qft_block_start(n, s),
        forall|u: int| 0 <= u <= s ==> 1 <= #[trigger] qft_block_start(n, u),
    decreases s,
{
    if s > 0 {
        lemma_qft_start_props(n, s - 1);
        assert(qft_block_start(n, s) == qft_block_start(n, s - 1) + (n - (s - 1)));
    }
}

/// Earlier inverse-Fourier blocks end before later blocks begin.
proof fn lemma_iqft_start_props(s: int)
    requires
        0 <= s,
    ensures
        forall|u: int| 0 <= u < s ==> #[trigger] iqft_block_start(u) + (u + 1) <= iqft_block_start(s),
        forall|u: int| 0 <= u <= s ==> 0 <= #[trigger] iqft_block_start(u),
    decreases s,
{
    if s > 0 {
        lemma_iqft_start_props(s - 1);
        assert(iqft_block_start(s) == iqft_block_start(s - 1) + s);
    }
}

/// The circuit is exactly the Fourier transform construction: a bit
/// reversal, then per qubit s a lifted Hadamard followed by lifted
/// controlled phase shifts by tau / 2^(j - s + 1) for each later qubit j.
pub open spec fn is_qft_circuit(c: QuantumCircuit, n: int) -> bool {
    &&& c.n_qubits == n
    &&& c.gates@.len() == qft_block_start(n, n)
    &&& is_rev_gate(c.gates@[0], n)
    &&& forall|s: int| 0 <= s < n ==> is_h_gate(#[trigger] c.gates@[qft_block_start(n, s)], s, n)
    &&& forall|s: int, j: int|
        0 <= s < j < n ==> is_cps_gate(
            #[trigger] c.gates@[qft_block_start(n, s) + (j - s)],
            1,
            j,
            s,
            n,
        )
}

/// The circuit is exactly the inverse construction: per block t the
/// negated phase shifts in reverse order, a lifted Hadamard, and a final
/// bit reversal.
pub open spec fn is_iqft_circuit(c: QuantumCircuit, n: int) -> bool {
    &&& c.n_qubits == n
    &&& c.gates@.len() == iqft_block_start(n) + 1
    &&& forall|t: int, j: int|
        0 <= t < n && n - t <= j < n ==> is_cps_gate(
            #[trigger] c.gates@[iqft_block_start(t) + (n - 1 - j)],
            -1,
            j,
            n - 1 - t,
            n,
        )
    &&& forall|t: int|
        0 <= t < n ==> is_h_gate(#[trigger] c.gates@[iqft_block_start(t) + t], n - 1 - t, n)
    &&& is_rev_gate(c.gates@[iqft_block_start(n)], n)
}

/// The input-qubit list of step i of the variably controlled block.
pub open spec fn vc_inputs(k: int, i: int) -> Seq<usize> {
    seq![(k + i) as usize] + Seq::new(k as nat, |q: int| q as usize)
}

/// g is the one-qubit-padded base gate applied to control qubit k + i and
/// the k target qubits, lifted to 2k qubits.
pub open spec fn is_vc_gate(g: QuantumGate, base: QuantumGate, k: int, i: int) -> bool {
    let comp = complete_rec(vc_inputs(k, i), (2 * k) as nat);
    let bs2 = 2 * base.spec_size();
    &&& g.n_qubits == 2 * k
    &&& forall|r: int, c: int|
        0 <= r < g.spec_size() && 0 <= c < g.spec_size() ==> g.at(r, c) == {
            let gi = qperm_map(perm_inv(comp), r);
            let gj = qperm_map(perm_inv(comp), c);
            if gi / bs2 == gj / bs2 {
                padded_at(base, gi % bs2, gj % bs2)
            } else {
                c_zero()
            }
        }
}

/// A lifted copy of the Hadamard is a lifted-Hadamard gate.
proof fn lemma_lifted_is_h(g: QuantumGate, h: QuantumGate, s: int, n: int, su: usize)
    requires
        su as int == s,
        h.wf(),
        h.n_qubits == 1,
        h.at(0, 0) == crate::gate::inv_sqrt2_v(),
        h.at(0, 1) == crate::gate::inv_sqrt2_v(),
        h.at(1, 0) == crate::gate::inv_sqrt2_v(),
        h.at(1, 1) == crate::scalar::c_neg(crate::gate::inv_sqrt2_v()),
        is_lifted(g, h, complete_rec(seq![su], n as nat), n),
    ensures
        is_h_gate(g, s, n),
{
    let comp = complete_rec(seq![su], n as nat);
    assert(seq![su] =~= seq![s as usize]);
    assert(h.spec_size() == 2) by {
        vstd::arithmetic::power2::lemma2_to64();
    }
    assert forall|i: int, j: int|
        0 <= i < g.spec_size() && 0 <= j < g.spec_size() implies g.at(i, j) == {
        let gi = qperm_map(perm_inv(comp), i);
        let gj = qperm_map(perm_inv(comp), j);
        if gi / 2 == gj / 2 {
            h_base_at(gi % 2, gj % 2)
        } else {
            c_zero()
        }
    } by {
        let gi = qperm_map(perm_inv(comp), i);
        let gj = qperm_map(perm_inv(comp), j);
        vstd::arithmetic::div_mod::lemma_mod_bound(gi, 2);
        vstd::arithmetic::div_mod::lemma_mod_bound(gj, 2);
        assert(g.at(i, j) == lifted_at(h, comp, i, j));
    }
}

/// A lifted copy of a controlled phase shift is a lifted-phase gate.
proof fn lemma_lifted_is_cps(
    g: QuantumGate,
    cps: QuantumGate,
    num: int,
    ctrl: int,
    tgt: int,
    n: int,
    cu: usize,
    tu: usize,
)
    requires
        cu as int == ctrl,
        tu as int == tgt,
        cps.wf(),
        cps.n_qubits == 2,
        forall|i: int, j: int|
            0 <= i < 4 && 0 <= j < 4 ==> cps.at(i, j) == cps_base_at(
                num,
                (ctrl - tgt + 1) as nat,
                i,
                j,
            ),
        is_lifted(g, cps, complete_rec(seq![cu, tu], n as nat), n),
    ensures
        is_cps_gate(g, num, ctrl, tgt, n),
{
    let comp = complete_rec(seq![cu, tu], n as nat);
    assert(seq![cu, tu] =~= seq![ctrl as usize, tgt as usize]);
    assert(cps.spec_size() == 4) by {
        vstd::arithmetic::power2::lemma2_to64();
    }
    let p = (ctrl - tgt + 1) as nat;
    assert forall|i: int, j: int|
        0 <= i < g.spec_size() && 0 <= j < g.spec_size() implies g.at(i, j) == {
        let gi = qperm_map(perm_inv(comp), i);
        let gj = qperm_map(perm_inv(comp), j);
        if gi / 4 == gj / 4 {
            cps_base_at(num, p, gi % 4, gj % 4)
        } else {
            c_zero()
        }
    } by {
        let gi = qperm_map(perm_inv(comp), i);
        let gj = qperm_map(perm_inv(comp), j);
        vstd::arithmetic::div_mod::lemma_mod_bound(gi, 4);
        vstd::arithmetic::div_mod::lemma_mod_bound(gj, 4);
        assert(g.at(i, j) == lifted_at(cps, comp, i, j));
        if gi / 4 == gj / 4 {
            if gi % 4 == gj % 4 {
                assert(cps.at(gi % 4, gj % 4) == cps_base_at(num, p, gi % 4, gj % 4));
            } else {
                assert(cps.at(gi % 4, gj % 4) == cps_base_at(num, p, gi % 4, gj % 4));
            }
        }
    }
}

impl QuantumCircuit {
    /// The quantum Fourier transform circuit on n qubits: a bit-reversal
    /// permutation over all qubits, then for each qubit s a Hadamard
    /// followed by controlled phase shifts by tau / 2^(j - s + 1) with
    /// control qubit j, for each later qubit j. The contract pins every
    /// stored gate.
    pub fn fourier_transform(n: usize) -> (c: QuantumCircuit)
        requires
            1 <= n <= QUBIT_MAX,
        ensures
            c.wf(),
            is_qft_circuit(c, n as int),
    {
        let mut c = QuantumCircuit::new(n);
        let rev = reversal_perm(n);
        proof {
            assert(rev@ =~= reversal_seq(n as int));
        }
        let revg = QuantumGate::permutation(rev);
        c.gates.push(revg);
        proof {
            assert(is_rev_gate(c.gates@[0], n as int));
        }
        let mut s: usize = 0;
        while s < n
            invariant
                s <= n,
                1 <= n <= QUBIT_MAX,
                c.wf(),
                c.n_qubits == n,
                c.gates@.len() == qft_block_start(n as int, s as int),
                1 <= c.gates@.len(),
                is_rev_gate(c.gates@[0], n as int),
                forall|u: int|
                    0 <= u < s ==> is_h_gate(
                        #[trigger] c.gates@[qft_block_start(n as int, u)],
                        u,
                        n as int,
                    ),
                forall|u: int, j: int|
                    0 <= u < s && u < j < n ==> is_cps_gate(
                        #[trigger] c.gates@[qft_block_start(n as int, u) + (j - u)],
                        1,
                        j,
                        u,
                        n as int,
                    ),
            decreases n - s,
        {
            let ghost len0 = c.gates@.len() as int;
            let ghost snap0 = c.gates@;
            let h = QuantumGate::hadamard();
            let mut hin: Vec<usize> = Vec::new();
            hin.push(s);
            c.add_gate(&h, &hin);
            proof {
                lemma_qft_start_props(n as int, s as int);
                assert forall|u: int| 0 <= u < len0 implies c.gates@[u] == snap0[u] by {
                    assert(c.gates@.take(len0)[u] == c.gates@[u]);
                }
                assert(hin@ =~= seq![s]);
                lemma_lifted_is_h(c.gates@[len0], h, s as int, n as int, s);
                assert forall|u: int| 0 <= u < s implies is_h_gate(
                    #[trigger] c.gates@[qft_block_start(n as int, u)],
                    u,
                    n as int,
                ) by {
                    assert(qft_block_start(n as int, u) + (n - u) <= len0);
                    assert(c.gates@[qft_block_start(n as int, u)] == snap0[qft_block_start(
                        n as int,
                        u,
                    )]);
                }
                assert forall|u: int, j2: int| 0 <= u < s && u < j2 < n implies is_cps_gate(
                    #[trigger] c.gates@[qft_block_start(n as int, u) + (j2 - u)],
                    1,
                    j2,
                    u,
                    n as int,
                ) by {
                    assert(qft_block_start(n as int, u) + (n - u) <= len0);
                    assert(c.gates@[qft_block_start(n as int, u) + (j2 - u)] == snap0[
                    qft_block_start(n as int, u) + (j2 - u)]);
                }
            }
            let mut j: usize = s + 1;
            while j < n
                invariant
                    s < n,
                    s + 1 <= j <= n,
                    1 <= n <= QUBIT_MAX,
                    c.wf(),
                    c.n_qubits == n,
                    len0 == qft_block_start(n as int, s as int),
                    c.gates@.len() == len0 + 1 + (j - s - 1),
                    1 <= len0,
                    is_rev_gate(c.gates@[0], n as int),
                    forall|u: int|
                        0 <= u < s ==> is_h_gate(
                            #[trigger] c.gates@[qft_block_start(n as int, u)],
                            u,
                            n as int,
                        ),
                    forall|u: int, j2: int|
                        0 <= u < s && u < j2 < n ==> is_cps_gate(
                            #[trigger] c.gates@[qft_block_start(n as int, u) + (j2 - u)],
                            1,
                            j2,
                            u,
                            n as int,
                        ),
                    is_h_gate(c.gates@[len0], s as int, n as int),
                    forall|j2: int|
                        s < j2 < j ==> is_cps_gate(
                            #[trigger] c.gates@[len0 + (j2 - (s as int))],
                            1,
                            j2,
                            s as int,
                            n as int,
                        ),
                decreases n - j,
            {
                let cps = match QuantumGate::controlled_phase_shift(1, (j - s + 1) as u32) {
                    Ok(g) => g,
                    Err(e) => {
                        proof {
                            crate::gate::lemma_phase_ok_unit(1, (j - s + 1) as nat);
                            assert(false);
                        }
                        vstd::pervasive::unreached()
                    },
                };
                let mut cin: Vec<usize> = Vec::new();
                cin.push(j);
                cin.push(s);
                let ghost lenb = c.gates@.len() as int;
                let ghost snapb = c.gates@;
                c.add_gate(&cps, &cin);
                proof {
                    lemma_qft_start_props(n as int, s as int);
                    assert forall|u: int| 0 <= u < lenb implies c.gates@[u] == snapb[u] by {
                        assert(c.gates@.take(lenb)[u] == c.gates@[u]);
                    }
                    assert(cin@ =~= seq![j, s]);
                    assert forall|i2: int, j2: int| 0 <= i2 < 4 && 0 <= j2 < 4 implies cps.at(
                        i2,
                        j2,
                    ) == cps_base_at(1, ((j - s + 1) as u32) as nat, i2, j2) by {}
                    lemma_lifted_is_cps(
                        c.gates@[lenb],
                        cps,
                        1,
                        j as int,
                        s as int,
                        n as int,
                        j,
                        s,
                    );
                    assert(lenb == len0 + ((j as int) - (s as int) - 1) + 1);
                    assert forall|u: int| 0 <= u < s implies is_h_gate(
                        #[trigger] c.gates@[qft_block_start(n as int, u)],
                        u,
                        n as int,
                    ) by {
                        assert(qft_block_start(n as int, u) + (n - u) <= len0);
                        assert(c.gates@[qft_block_start(n as int, u)] == snapb[qft_block_start(
                            n as int,
                            u,
                        )]);
                    }
                    assert forall|u: int, j2: int| 0 <= u < s && u < j2 < n implies is_cps_gate(
                        #[trigger] c.gates@[qft_block_start(n as int, u) + (j2 - u)],
                        1,
                        j2,
                        u,
                        n as int,
                    ) by {
                        assert(qft_block_start(n as int, u) + (n - u) <= len0);
                        assert(c.gates@[qft_block_start(n as int, u) + (j2 - u)] == snapb[
                        qft_block_start(n as int, u) + (j2 - u)]);
                    }
                    assert(is_h_gate(c.gates@[len0], s as int, n as int)) by {
                        assert(c.gates@[len0] == snapb[len0]);
                    }
                    assert forall|j2: int| s < j2 < j + 1 implies is_cps_gate(
                        #[trigger] c.gates@[len0 + (j2 - (s as int))],
                        1,
                        j2,
                        s as int,
                        n as int,
                    ) by {
                        if j2 < j {
                            assert(c.gates@[len0 + (j2 - (s as int))] == snapb[len0 + (j2 - (
                            s as int))]);
                        }
                    }
                }
                j = j + 1;
            }
            proof {
                lemma_qft_start_props(n as int, (s as int) + 1);
                assert(qft_block_start(n as int, (s as int) + 1) == len0 + (n - (s as int)));
            }
            s = s + 1;
        }
        c
    }

    /// The inverse Fourier transform: the mirror construction, with the
    /// phase shifts negated and in reverse order, each block closed by a
    /// Hadamard, and a final bit-reversal permutation. The contract pins
    /// every stored gate.
    pub fn inverse_fourier_transform(n: usize) -> (c: QuantumCircuit)
        requires
            1 <= n <= QUBIT_MAX,
        ensures
            c.wf(),
            is_iqft_circuit(c, n as int),
    {
        let mut c = QuantumCircuit::new(n);
        let mut s2: usize = 0;
        while s2 < n
            invariant
                s2 <= n,
                1 <= n <= QUBIT_MAX,
                c.wf(),
                c.n_qubits == n,
                c.gates@.len() == iqft_block_start(s2 as int),
                forall|t: int, j: int|
                    0 <= t < s2 && n - t <= j < n ==> is_cps_gate(
                        #[trigger] c.gates@[iqft_block_start(t) + (n - 1 - j)],
                        -1,
                        j,
                        n - 1 - t,
                        n as int,
                    ),
                forall|t: int|
                    0 <= t < s2 ==> is_h_gate(
                        #[trigger] c.gates@[iqft_block_start(t) + t],
                        n - 1 - t,
                        n as int,
                    ),
            decreases n - s2,
        {
            let s: usize = n - 1 - s2;
            let ghost len0 = c.gates@.len() as int;
            let mut j: usize = n;
            while j > s + 1
                invariant
                    s < n,
                    s == n - 1 - s2,
                    s2 < n,
                    s + 1 <= j <= n,
                    1 <= n <= QUBIT_MAX,
                    c.wf(),
                    c.n_qubits == n,
                    len0 == iqft_block_start(s2 as int),
                    c.gates@.len() == len0 + (n - j),
                    forall|t: int, j2: int|
                        0 <= t < s2 && n - t <= j2 < n ==> is_cps_gate(
                            #[trigger] c.gates@[iqft_block_start(t) + (n - 1 - j2)],
                            -1,
                            j2,
                            n - 1 - t,
                            n as int,
                        ),
                    forall|t: int|
                        0 <= t < s2 ==> is_h_gate(
                            #[trigger] c.gates@[iqft_block_start(t) + t],
                            n - 1 - t,
                            n as int,
                        ),
                    forall|j2: int|
                        j <= j2 < n ==> is_cps_gate(
                            #[trigger] c.gates@[len0 + ((n as int) - 1 - j2)],
                            -1,
                            j2,
                            s as int,
                            n as int,
                        ),
                decreases j,
            {
                j = j - 1;
                let cps = match QuantumGate::controlled_phase_shift(-1, (j - s + 1) as u32) {
                    Ok(g) => g,
                    Err(e) => {
                        proof {
                            crate::gate::lemma_phase_ok_unit(-1, (j - s + 1) as nat);
                            assert(false);
                        }
                        vstd::pervasive::unreached()
                    },
                };
                let mut cin: Vec<usize> = Vec::new();
                cin.push(j);
                cin.push(s);
                let ghost lenb = c.gates@.len() as int;
                let ghost snapb = c.gates@;
                c.add_gate(&cps, &cin);
                proof {
                    lemma_iqft_start_props(s2 as int);
                    lemma_iqft_start_props((s2 as int) + 1);
                    assert forall|u: int| 0 <= u < lenb implies c.gates@[u] == snapb[u] by {
                        assert(c.gates@.take(lenb)[u] == c.gates@[u]);
                    }
                    assert(cin@ =~= seq![j, s]);
                    assert forall|i2: int, j2: int| 0 <= i2 < 4 && 0 <= j2 < 4 implies cps.at(
                        i2,
                        j2,
                    ) == cps_base_at(-1, ((j - s + 1) as u32) as nat, i2, j2) by {}
                    lemma_lifted_is_cps(
                        c.gates@[lenb],
                        cps,
                        -1,
                        j as int,
                        s as int,
                        n as int,
                        j,
                        s,
                    );
                    assert(lenb == len0 + ((n as int) - 1 - (j as int)));
                    assert forall|t: int, j2: int|
                        0 <= t < s2 && n - t <= j2 < n implies is_cps_gate(
                        #[trigger] c.gates@[iqft_block_start(t) + (n - 1 - j2)],
                        -1,
                        j2,
                        n - 1 - t,
                        n as int,
                    ) by {
                        assert(iqft_block_start(t) + (t + 1) <= len0);
                        assert(c.gates@[iqft_block_start(t) + (n - 1 - j2)] == snapb[
                        iqft_block_start(t) + (n - 1 - j2)]);
                    }
                    assert forall|t: int| 0 <= t < s2 implies is_h_gate(
                        #[trigger] c.gates@[iqft_block_start(t) + t],
                        n - 1 - t,
                        n as int,
                    ) by {
                        assert(iqft_block_start(t) + (t + 1) <= len0);
                        assert(c.gates@[iqft_block_start(t) + t] == snapb[iqft_block_start(t)
                            + t]);
                    }
                    assert forall|j2: int| j <= j2 < n implies is_cps_gate(
                        #[trigger] c.gates@[len0 + ((n as int) - 1 - j2)],
                        -1,
                        j2,
                        s as int,
                        n as int,
                    ) by {
                        if j2 > j {
                            assert(c.gates@[len0 + ((n as int) - 1 - j2)] == snapb[len0 + ((
                            n as int) - 1 - j2)]);
                        }
                    }
                }
            }
            let h = QuantumGate::hadamard();
            let mut hin: Vec<usize> = Vec::new();
            hin.push(s);
            let ghost lenh = c.gates@.len() as int;
            let ghost snaph = c.gates@;
            c.add_gate(&h, &hin);
            proof {
                lemma_iqft_start_props(s2 as int);
                lemma_iqft_start_props((s2 as int) + 1);
                assert forall|u: int| 0 <= u < lenh implies c.gates@[u] == snaph[u] by {
                    assert(c.gates@.take(lenh)[u] == c.gates@[u]);
                }
                assert(hin@ =~= seq![s]);
                lemma_lifted_is_h(c.gates@[lenh], h, s as int, n as int, s);
                assert(lenh == len0 + (s2 as int));
                assert(iqft_block_start((s2 as int) + 1) == len0 + (s2 as int) + 1);
                assert forall|t: int, j2: int|
                    0 <= t < s2 && n - t <= j2 < n implies is_cps_gate(
                    #[trigger] c.gates@[iqft_block_start(t) + (n - 1 - j2)],
                    -1,
                    j2,
                    n - 1 - t,
                    n as int,
                ) by {
                    assert(iqft_block_start(t) + (t + 1) <= len0);
                    assert(c.gates@[iqft_block_start(t) + (n - 1 - j2)] == snaph[iqft_block_start(
                        t,
                    ) + (n - 1 - j2)]);
                }
                assert forall|t: int| 0 <= t < s2 implies is_h_gate(
                    #[trigger] c.gates@[iqft_block_start(t) + t],
                    n - 1 - t,
                    n as int,
                ) by {
                    assert(iqft_block_start(t) + (t + 1) <= len0);
                    assert(c.gates@[iqft_block_start(t) + t] == snaph[iqft_block_start(t) + t]);
                }
                assert forall|j2: int| (s as int) + 1 <= j2 < n implies is_cps_gate(
                    #[trigger] c.gates@[len0 + ((n as int) - 1 - j2)],
                    -1,
                    j2,
                    s as int,
                    n as int,
                ) by {
                    assert(c.gates@[len0 + ((n as int) - 1 - j2)] == snaph[len0 + ((n as int) - 1
                        - j2)]);
                }
            }
            s2 = s2 + 1;
        }
        let rev = reversal_perm(n);
        proof {
            assert(rev@ =~= reversal_seq(n as int));
        }
        let revg = QuantumGate::permutation(rev);
        let ghost lenr = c.gates@.len() as int;
        let ghost snapr = c.gates@;
        c.gates.push(revg);
        proof {
            lemma_iqft_start_props(n as int);
            assert forall|u: int| 0 <= u < lenr implies c.gates@[u] == snapr[u] by {}
            assert(is_rev_gate(c.gates@[lenr], n as int));
            assert forall|t: int, j2: int| 0 <= t < n && n - t <= j2 < n implies is_cps_gate(
                #[trigger] c.gates@[iqft_block_start(t) + (n - 1 - j2)],
                -1,
                j2,
                n - 1 - t,
                n as int,
            ) by {
                assert(iqft_block_start(t) + (t + 1) <= lenr);
                assert(c.gates@[iqft_block_start(t) + (n - 1 - j2)] == snapr[iqft_block_start(t)
                    + (n - 1 - j2)]);
            }
            assert forall|t: int| 0 <= t < n implies is_h_gate(
                #[trigger] c.gates@[iqft_block_start(t) + t],
                n - 1 - t,
                n as int,
            ) by {
                assert(iqft_block_start(t) + (t + 1) <= lenr);
                assert(c.gates@[iqft_block_start(t) + t] == snapr[iqft_block_start(t) + t]);
            }
        }
        c
    }

    /// The variably controlled block over a base gate on k qubits: a
    /// 2k-qubit circuit that, for each control qubit i, applies the base
    /// gate padded with one identity qubit to the qubits
    /// [k + i, 0, 1, ..., k - 1]. The contract pins every stored gate.
    pub fn variably_controlled_gate(base: &QuantumGate) -> (c: QuantumCircuit)
        requires
            base.wf(),
            2 * base.n_qubits <= QUBIT_MAX,
        ensures
            c.wf(),
            c.n_qubits == 2 * base.n_qubits,
            c.gates@.len() == base.n_qubits,
            forall|i: int|
                0 <= i < base.n_qubits ==> is_vc_gate(
                    #[trigger] c.gates@[i],
                    *base,
                    base.n_qubits as int,
                    i,
                ),
    {
        let k: usize = base.get_n_qubits();
        let mut c = QuantumCircuit::new(2 * k);
        let idg = QuantumGate::identity(1);
        let padded = match idg.tensor_product(base) {
            Ok(g) => g,
            Err(e) => {
                proof {
                    let bs = base.spec_size();
                    let ids = idg.spec_size();
                    let (i, j) = choose|i: int, j: int|
                        0 <= i < idg.spec_size() * base.spec_size() && 0 <= j < idg.spec_size()
                            * base.spec_size() && !c_bounded(
                            #[trigger] c_mul(
                                idg.at(i / base.spec_size(), j / base.spec_size()),
                                base.at(i % base.spec_size(), j % base.spec_size()),
                            ),
                            CX_MAX as int,
                        );
                    assert(0 <= i / bs < ids && 0 <= j / bs < ids && 0 <= i % bs < bs && 0 <= j
                        % bs < bs) by (nonlinear_arith)
                        requires
                            0 <= i < ids * bs,
                            0 <= j < ids * bs,
                            bs >= 1,
                            ids >= 1,
                    ;
                    base.matrix.matrix.lemma_at_bounded(i % bs, j % bs);
                    if i / bs == j / bs {
                        crate::scalar::lemma_c_mul_one(base.at(i % bs, j % bs));
                    } else {
                        crate::scalar::lemma_c_mul_zero(base.at(i % bs, j % bs));
                    }
                    assert(false);
                }
                vstd::pervasive::unreached()
            },
        };
        proof {
            vstd::arithmetic::power2::lemma2_to64();
            assert forall|r2: int, c3: int|
                0 <= r2 < padded.spec_size() && 0 <= c3 < padded.spec_size() implies padded.at(
                r2,
                c3,
            ) == padded_at(*base, r2, c3) by {
                let bs = base.spec_size();
                let ids = idg.spec_size();
                assert(0 <= r2 / bs < ids && 0 <= c3 / bs < ids && 0 <= r2 % bs < bs && 0 <= c3
                    % bs < bs) by (nonlinear_arith)
                    requires
                        0 <= r2 < ids * bs,
                        0 <= c3 < ids * bs,
                        bs >= 1,
                        ids >= 1,
                ;
                if r2 / bs == c3 / bs {
                    crate::scalar::lemma_c_mul_one(base.at(r2 % bs, c3 % bs));
                } else {
                    crate::scalar::lemma_c_mul_zero(base.at(r2 % bs, c3 % bs));
                }
            }
        }
        let mut i: usize = 0;
        while i < k
            invariant
                i <= k,
                1 <= k,
                2 * k <= QUBIT_MAX,
                base.wf(),
                base.n_qubits == k,
                padded.wf(),
                padded.n_qubits == 1 + k,
                padded.spec_size() == 2 * base.spec_size(),
                forall|r2: int, c3: int|
                    0 <= r2 < padded.spec_size() && 0 <= c3 < padded.spec_size()
                        ==> #[trigger] padded.at(r2, c3) == padded_at(*base, r2, c3),
                c.wf(),
                c.n_qubits == 2 * k,
                c.gates@.len() == i,
                forall|u: int|
                    0 <= u < i ==> is_vc_gate(#[trigger] c.gates@[u], *base, k as int, u),
            decreases k - i,
        {
            let mut cin: Vec<usize> = Vec::new();
            cin.push(k + i);
            let mut q: usize = 0;
            while q < k
                invariant
                    q <= k,
                    i < k,
                    cin@.len() == 1 + q,
                    cin@[0] == k + i,
                    forall|u: int| 1 <= u < cin@.len() ==> (#[trigger] cin@[u]) as int == u - 1,
                decreases k - q,
            {
                cin.push(q);
                q = q + 1;
            }
            proof {
                assert forall|t1: int, t2: int|
                    0 <= t1 < t2 < cin@.len() implies cin@[t1] != cin@[t2] by {}
                assert(cin@ =~= vc_inputs(k as int, i as int));
            }
            let ghost lenb = c.gates@.len() as int;
            let ghost snapb = c.gates@;
            c.add_gate(&padded, &cin);
            proof {
                assert forall|u: int| 0 <= u < lenb implies c.gates@[u] == snapb[u] by {
                    assert(c.gates@.take(lenb)[u] == c.gates@[u]);
                }
                let comp = complete_rec(vc_inputs(k as int, i as int), (2 * k) as nat);
                let g = c.gates@[lenb];
                assert(is_lifted(g, padded, comp, 2 * k as int));
                assert forall|r: int, cc: int|
                    0 <= r < g.spec_size() && 0 <= cc < g.spec_size() implies g.at(r, cc) == {
                    let gi = qperm_map(perm_inv(comp), r);
                    let gj = qperm_map(perm_inv(comp), cc);
                    if gi / (2 * base.spec_size()) == gj / (2 * base.spec_size()) {
                        padded_at(*base, gi % (2 * base.spec_size()), gj % (2 * base.spec_size()))
                    } else {
                        c_zero()
                    }
                } by {
                    let gi = qperm_map(perm_inv(comp), r);
                    let gj = qperm_map(perm_inv(comp), cc);
                    let bs2 = 2 * base.spec_size();
                    vstd::arithmetic::div_mod::lemma_mod_bound(gi, bs2);
                    vstd::arithmetic::div_mod::lemma_mod_bound(gj, bs2);
                    assert(g.at(r, cc) == lifted_at(padded, comp, r, cc));
                }
                assert(is_vc_gate(c.gates@[lenb], *base, k as int, i as int));
                assert forall|u: int| 0 <= u < i implies is_vc_gate(
                    #[trigger] c.gates@[u],
                    *base,
                    k as int,
                    u,
                ) by {
                    assert(c.gates@[u] == snapb[u]);
                }
            }
            i = i + 1;
        }
        c
    }
}

} // verus!
