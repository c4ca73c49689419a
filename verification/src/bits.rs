//! Bit vectors and qubit permutations.
//!
//! A basis-permutation gate moves the bit at position s of a basis index
//! to position pi[s] (positions read little-endian from the index). This
//! module gives that map an exact specification through three pieces: the
//! bits of an index, scattering bits to new positions, and reading bits
//! back as an index; and proves the round trips that make a permutation
//! and its inverse cancel.

use vstd::prelude::*;

use vstd::arithmetic::power2::pow2;

verus! {

/// The low n bits of x, little-endian.
pub open spec fn bits_of(x: int, n: nat) -> Seq<bool>
    decreases n,
{
    if n == 0 {
        Seq::empty()
    } else {
        seq![x % 2 == 1] + bits_of(x / 2, (n - 1) as nat)
    }
}

/// The index with the given little-endian bits.
pub open spec fn from_bits(v: Seq<bool>) -> int
    decreases v.len(),
{
    if v.len() == 0 {
        0
    } else {
        (if v[0] {
            1int
        } else {
            0int
        }) + 2 * from_bits(v.drop_first())
    }
}

/// The bit vector with v[s] placed at position pi[s], for s below `steps`;
/// untouched positions read false.
pub open spec fn scatter(v: Seq<bool>, pi: Seq<usize>, steps: nat) -> Seq<bool>
    decreases steps,
{
    if steps == 0 {
        Seq::new(v.len(), |t: int| false)
    } else {
        scatter(v, pi, (steps - 1) as nat).update(pi[steps - 1] as int, v[steps - 1])
    }
}

/// pi maps [0, n) into [0, n) without repeats: a permutation of the qubit
/// positions.
pub open spec fn is_qubit_perm(pi: Seq<usize>, n: int) -> bool {
    &&& pi.len() == n
    &&& forall|s: int| 0 <= s < n ==> (#[trigger] pi[s]) < n
    &&& forall|s1: int, s2: int| 0 <= s1 < s2 < n ==> pi[s1] != pi[s2]
}

/// The basis-index map of the qubit permutation pi: bit s of b moves to
/// position pi[s].
pub open spec fn qperm_map(pi: Seq<usize>, b: int) -> int {
    from_bits(scatter(bits_of(b, pi.len()), pi, pi.len()))
}

pub proof fn lemma_from_bits_bound(v: Seq<bool>)
    ensures
        0 <= from_bits(v) < pow2(v.len()),
    decreases v.len(),
{
    vstd::arithmetic::power2::lemma_pow2_pos(v.len());
    if v.len() > 0 {
        lemma_from_bits_bound(v.drop_first());
        vstd::arithmetic::power2::lemma_pow2_unfold(v.len());
    }
}

/// Reading an index's bits back gives the index, for indices in range.
pub proof fn lemma_bits_of_from(x: int, n: nat)
    requires
        0 <= x < pow2(n),
    ensures
        from_bits(bits_of(x, n)) == x,
    decreases n,
{
    if n == 0 {
        assert(pow2(0) == 1) by {
            vstd::arithmetic::power2::lemma2_to64();
        }
    } else {
        vstd::arithmetic::power2::lemma_pow2_unfold(n);
        assert(0 <= x / 2 < pow2((n - 1) as nat));
        lemma_bits_of_from(x / 2, (n - 1) as nat);
        let v = seq![x % 2 == 1] + bits_of(x / 2, (n - 1) as nat);
        assert(v.drop_first() =~= bits_of(x / 2, (n - 1) as nat));
        assert(v[0] == (x % 2 == 1));
        vstd::arithmetic::div_mod::lemma_fundamental_div_mod(x, 2);
    }
}

/// Rebuilding an index from bits and taking bits again gives the same
/// bits.
pub proof fn lemma_from_bits_of(v: Seq<bool>)
    ensures
        bits_of(from_bits(v), v.len()) == v,
    decreases v.len(),
{
    if v.len() > 0 {
        lemma_from_bits_of(v.drop_first());
        let x = from_bits(v);
        let b0: int = if v[0] {
            1
        } else {
            0
        };
        let r = from_bits(v.drop_first());
        lemma_from_bits_bound(v.drop_first());
        assert(x == b0 + 2 * r);
        vstd::arithmetic::div_mod::lemma_fundamental_div_mod_converse(x, 2, r, b0);
        assert(x % 2 == b0 && x / 2 == r);
        assert(bits_of(x, v.len()) == seq![x % 2 == 1] + bits_of(r, (v.len() - 1) as nat));
        assert(bits_of(x, v.len()) =~= v);
    }
}

pub proof fn lemma_scatter_len(v: Seq<bool>, pi: Seq<usize>, steps: nat)
    requires
        steps <= pi.len(),
        forall|s: int| 0 <= s < pi.len() ==> (#[trigger] pi[s]) < v.len(),
    ensures
        scatter(v, pi, steps).len() == v.len(),
    decreases steps,
{
    if steps > 0 {
        lemma_scatter_len(v, pi, (steps - 1) as nat);
    }
}

/// After all steps, position pi[s] holds bit s.
pub proof fn lemma_scatter_at(v: Seq<bool>, pi: Seq<usize>, steps: nat, s: int)
    requires
        pi.len() == v.len(),
        0 <= s < steps <= v.len(),
        forall|u: int| 0 <= u < pi.len() ==> (#[trigger] pi[u]) < v.len(),
        forall|u1: int, u2: int| 0 <= u1 < u2 < pi.len() ==> pi[u1] != pi[u2],
    ensures
        scatter(v, pi, steps)[pi[s] as int] == v[s],
    decreases steps,
{
    lemma_scatter_len(v, pi, (steps - 1) as nat);
    if s == steps - 1 {
    } else {
        lemma_scatter_at(v, pi, (steps - 1) as nat, s);
        assert(pi[steps - 1] != pi[s]);
    }
}

/// Some position of s holds the value t.
pub open spec fn seq_covers(s: Seq<usize>, t: int) -> bool {
    exists|i: int| 0 <= i < s.len() && (#[trigger] s[i]) as int == t
}

/// A sequence of n distinct values below n covers every value below n.
pub proof fn lemma_distinct_range_onto(s: Seq<usize>, n: int)
    requires
        s.len() == n,
        forall|i: int| 0 <= i < n ==> (#[trigger] s[i]) < n,
        forall|i1: int, i2: int| 0 <= i1 < i2 < n ==> s[i1] != s[i2],
    ensures
        forall|t: int| 0 <= t < n ==> #[trigger] seq_covers(s, t),
{
    broadcast use vstd::set::group_set_axioms;

    let si = s.map_values(|x: usize| x as int);
    assert(si.no_duplicates()) by {
        assert forall|i1: int, i2: int|
            0 <= i1 < si.len() && 0 <= i2 < si.len() && i1 != i2 implies si[i1] != si[i2] by {
            if i1 < i2 {
                assert(s[i1] != s[i2]);
            } else {
                assert(s[i2] != s[i1]);
            }
        }
    }
    si.unique_seq_to_set();
    let range = vstd::set_lib::set_int_range(0, n);
    vstd::set_lib::lemma_int_range(0, n);
    assert(si.to_set().subset_of(range)) by {
        assert forall|x: int| si.to_set().contains(x) implies range.contains(x) by {
            let i = choose|i: int| 0 <= i < si.len() && si[i] == x;
            assert(s[i] < n);
        }
    }
    vstd::set_lib::lemma_subset_equality(si.to_set(), range);
    assert forall|t: int| 0 <= t < n implies #[trigger] seq_covers(s, t) by {
        assert(range.contains(t));
        assert(si.to_set().contains(t));
        let i = choose|i: int| 0 <= i < si.len() && si[i] == t;
        assert(0 <= i < s.len() && s[i] as int == t);
    }
}

/// The index map of a permutation lands in range.
pub proof fn lemma_qperm_map_bound(pi: Seq<usize>, b: int, n: int)
    requires
        is_qubit_perm(pi, n),
        n >= 0,
    ensures
        0 <= qperm_map(pi, b) < pow2(n as nat),
{
    lemma_bits_len(b, n as nat);
    lemma_scatter_len(bits_of(b, n as nat), pi, n as nat);
    lemma_from_bits_bound(scatter(bits_of(b, n as nat), pi, n as nat));
}

pub proof fn lemma_bits_len(x: int, n: nat)
    ensures
        bits_of(x, n).len() == n,
    decreases n,
{
    if n > 0 {
        lemma_bits_len(x / 2, (n - 1) as nat);
    }
}

/// Applying a permutation's index map and then its inverse's gives the
/// index back.
pub proof fn lemma_qperm_map_inverse(pi: Seq<usize>, inv: Seq<usize>, b: int, n: int)
    requires
        is_qubit_perm(pi, n),
        is_qubit_perm(inv, n),
        forall|s: int| 0 <= s < n ==> (#[trigger] inv[pi[s] as int]) as int == s,
        0 <= b < pow2(n as nat),
    ensures
        qperm_map(inv, qperm_map(pi, b)) == b,
{
    let w = bits_of(b, n as nat);
    lemma_bits_len(b, n as nat);
    let u = scatter(w, pi, n as nat);
    lemma_scatter_len(w, pi, n as nat);
    let x = qperm_map(pi, b);
    lemma_from_bits_of(u);
    assert(bits_of(x, n as nat) == u);
    let w2 = scatter(u, inv, n as nat);
    lemma_scatter_len(u, inv, n as nat);
    assert forall|s: int| 0 <= s < n implies w2[s] == w[s] by {
        let t = pi[s] as int;
        lemma_scatter_at(u, inv, n as nat, t);
        assert(w2[inv[t] as int] == u[t]);
        lemma_scatter_at(w, pi, n as nat, s);
        assert(u[pi[s] as int] == w[s]);
    }
    assert(w2 =~= w);
    lemma_bits_of_from(b, n as nat);
}

} // verus!

verus! {

/// The inverse of a qubit permutation, position by position.
pub open spec fn perm_inv(pi: Seq<usize>) -> Seq<usize> {
    Seq::new(
        pi.len(),
        |t: int| (choose|s: int| 0 <= s < pi.len() && (#[trigger] pi[s]) as int == t) as usize,
    )
}

/// The inverse of a permutation is a permutation and cancels it on both
/// sides.
pub proof fn lemma_perm_inv_props(pi: Seq<usize>, n: int)
    requires
        is_qubit_perm(pi, n),
        n <= 0xffff_ffff,
    ensures
        is_qubit_perm(perm_inv(pi), n),
        forall|s: int| 0 <= s < n ==> (#[trigger] perm_inv(pi)[pi[s] as int]) as int == s,
        forall|t: int| 0 <= t < n ==> (pi[(#[trigger] perm_inv(pi)[t]) as int]) as int == t,
{
    lemma_distinct_range_onto(pi, n);
    let inv = perm_inv(pi);
    assert forall|t: int| 0 <= t < n implies (pi[(#[trigger] inv[t]) as int]) as int == t && (
    inv[t] as int) < n by {
        assert(seq_covers(pi, t));
        let i0 = choose|i: int| 0 <= i < pi.len() && (#[trigger] pi[i]) as int == t;
        assert(0 <= i0 < pi.len() && pi[i0] as int == t);
        let s0 = choose|s: int| 0 <= s < pi.len() && (#[trigger] pi[s]) as int == t;
        assert(0 <= s0 < pi.len() && pi[s0] as int == t);
        assert(inv[t] == (choose|s: int|
            0 <= s < pi.len() && (#[trigger] pi[s]) as int == t) as usize);
        assert(inv[t] as int == s0);
    }
    assert forall|s: int| 0 <= s < n implies (#[trigger] inv[pi[s] as int]) as int == s by {
        let t = pi[s] as int;
        let s0 = inv[t] as int;
        assert(pi[s0] as int == t);
        if s0 != s {
            if s0 < s {
                assert(pi[s0] != pi[s]);
            } else {
                assert(pi[s] != pi[s0]);
            }
            assert(false);
        }
    }
    assert forall|t1: int, t2: int| 0 <= t1 < t2 < n implies inv[t1] != inv[t2] by {
        if inv[t1] == inv[t2] {
            assert(pi[inv[t1] as int] as int == t1);
            assert(pi[inv[t2] as int] as int == t2);
        }
    }
}

/// Appending one more bit to the low bits of x.
pub proof fn lemma_bits_snoc(x: int, s: nat)
    requires
        x >= 0,
    ensures
        bits_of(x, (s + 1) as nat) == bits_of(x, s).push(x / (pow2(s) as int) % 2 == 1),
    decreases s,
{
    vstd::arithmetic::power2::lemma_pow2_pos(s);
    if s == 0 {
        assert(pow2(0) == 1) by {
            vstd::arithmetic::power2::lemma2_to64();
        }
        assert(x / 1 == x) by (nonlinear_arith);
        assert(bits_of(x / 2, 0) =~= Seq::<bool>::empty());
        assert(bits_of(x, 0) =~= Seq::<bool>::empty());
        assert(bits_of(x, 1) =~= bits_of(x, 0).push(x / (pow2(0) as int) % 2 == 1));
    } else {
        lemma_bits_snoc(x / 2, (s - 1) as nat);
        vstd::arithmetic::power2::lemma_pow2_pos((s - 1) as nat);
        vstd::arithmetic::power2::lemma_pow2_unfold(s);
        vstd::arithmetic::div_mod::lemma_div_denominator(x, 2, pow2((s - 1) as nat) as int);
        assert((x / 2) / (pow2((s - 1) as nat) as int) == x / (pow2(s) as int));
        assert(bits_of(x, (s + 1) as nat) == seq![x % 2 == 1] + bits_of(x / 2, s));
        assert(bits_of(x, (s + 1) as nat) =~= bits_of(x, s).push(x / (pow2(s) as int) % 2 == 1));
    }
}

/// The index map of a permutation is injective on its range.
pub proof fn lemma_qperm_map_injective(pi: Seq<usize>, b1: int, b2: int, n: int)
    requires
        is_qubit_perm(pi, n),
        n <= 0xffff_ffff,
        0 <= b1 < pow2(n as nat),
        0 <= b2 < pow2(n as nat),
        qperm_map(pi, b1) == qperm_map(pi, b2),
    ensures
        b1 == b2,
{
    lemma_perm_inv_props(pi, n);
    lemma_qperm_map_inverse(pi, perm_inv(pi), b1, n);
    lemma_qperm_map_inverse(pi, perm_inv(pi), b2, n);
}

} // verus!

verus! {

/// A distinct sequence of values below n that covers all of [0, n) has
/// length exactly n: it is a permutation of the positions.
pub proof fn lemma_covering_perm_len(s: Seq<usize>, n: int)
    requires
        n >= 0,
        forall|i: int| 0 <= i < s.len() ==> (#[trigger] s[i]) < n,
        forall|i1: int, i2: int| 0 <= i1 < i2 < s.len() ==> s[i1] != s[i2],
        forall|t: int| 0 <= t < n ==> #[trigger] seq_covers(s, t),
    ensures
        s.len() == n,
        is_qubit_perm(s, n),
{
    broadcast use vstd::set::group_set_axioms;

    let si = s.map_values(|x: usize| x as int);
    assert(si.no_duplicates()) by {
        assert forall|i1: int, i2: int|
            0 <= i1 < si.len() && 0 <= i2 < si.len() && i1 != i2 implies si[i1] != si[i2] by {
            if i1 < i2 {
                assert(s[i1] != s[i2]);
            } else {
                assert(s[i2] != s[i1]);
            }
        }
    }
    si.unique_seq_to_set();
    let range = vstd::set_lib::set_int_range(0, n);
    vstd::set_lib::lemma_int_range(0, n);
    assert(si.to_set().subset_of(range)) by {
        assert forall|x: int| si.to_set().contains(x) implies range.contains(x) by {
            let i = choose|i: int| 0 <= i < si.len() && si[i] == x;
            assert(s[i] < n);
        }
    }
    assert(range.subset_of(si.to_set())) by {
        assert forall|x: int| range.contains(x) implies si.to_set().contains(x) by {
            assert(seq_covers(s, x));
            let i = choose|i: int| 0 <= i < s.len() && (#[trigger] s[i]) as int == x;
            assert(si[i] == x);
        }
    }
    vstd::set_lib::lemma_len_subset(si.to_set(), range);
    vstd::set_lib::lemma_len_subset(range, si.to_set());
}

} // verus!
