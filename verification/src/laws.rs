use vstd::prelude::*;
use vstd::arithmetic::power2::pow2;
use vstd::arithmetic::power2::lemma_pow2_pos;
use crate::cx::{CxV, cxv_zero, cxv_one, cxv_add, cxv_mul, cxv_neg, norm_p, norm_q,
    lemma_mul_zero, lemma_mul_one, lemma_mul_neg_one, lemma_norm_neg, lemma_norm_mul_i,
    lemma_norm_mul_sqrt2, lemma_norm_mul_one_plus_i, lemma_norm_h_pair};
use crate::bits::{bitv, clearb, agree_off, flipb, lemma_bit_decomp, lemma_agree_off_cases, lemma_flipb_basic, lemma_bitv_other};
use crate::pure::{dotv, apply_amps, support2, single_mat, gen_entry, Gen, gen_hadamard,
    gen_identity, gen_pauli_x, gen_pauli_y, gen_pauli_z, gen_phase_s, gen_t,
    cnot_mat, swap_mat, cnot_tgt, swap_tgt, StateV};
use crate::driver::{Gate, GateOp, op_ok, op_is_noop, step_state, run_upto, init_state, basis_state, tensor};
use vstd::arithmetic::div_mod::lemma_fundamental_div_mod;
use vstd::arithmetic::power2::lemma_pow2_adds;
use vstd::arithmetic::power2::lemma2_to64;
use vstd::arithmetic::div_mod::lemma_fundamental_div_mod_converse;

verus! {

proof fn lemma_dotv_one_support(row: Seq<CxV>, s: Seq<CxV>, m: nat, j: int)
    requires support2(row, m, j, j),
    ensures dotv(row, s, m) == if 0 <= j < m { cxv_mul(row[j], s[j]) } else { cxv_zero() },
    decreases m,
{
    if m > 0 {
        assert(support2(row, (m - 1) as nat, j, j));
        lemma_dotv_one_support(row, s, (m - 1) as nat, j);
        if m - 1 != j {
            assert(row[m - 1] == cxv_zero());
            lemma_mul_zero(s[m - 1]);
        }
    }
}

proof fn lemma_dotv_two_support(row: Seq<CxV>, s: Seq<CxV>, m: nat, j1: int, j2: int)
    requires 0 <= j1 < j2, support2(row, m, j1, j2),
    ensures dotv(row, s, m) ==
        if j2 < m { cxv_add(cxv_mul(row[j1], s[j1]), cxv_mul(row[j2], s[j2])) }
        else if j1 < m { cxv_mul(row[j1], s[j1]) }
        else { cxv_zero() },
    decreases m,
{
    if m > 0 {
        if m - 1 == j2 {
            assert(support2(row, (m - 1) as nat, j1, j1));
            lemma_dotv_one_support(row, s, (m - 1) as nat, j1);
        } else {
            assert(support2(row, (m - 1) as nat, j1, j2));
            lemma_dotv_two_support(row, s, (m - 1) as nat, j1, j2);
            if m - 1 != j1 {
                assert(row[m - 1] == cxv_zero());
                lemma_mul_zero(s[m - 1]);
            }
        }
    }
}

/// Collapses the dot product for a one-qubit gate row: only the two
/// columns that share every bit with `i` except the target position can
/// contribute, so the result is a combination of the pair of amplitudes.
pub proof fn lemma_single_row_dot(g: Gen, n: nat, q: nat, s: Seq<CxV>, i: int)
    requires 1 <= q <= n, s.len() == pow2(n), 0 <= i < pow2(n),
    ensures ({
        let p = (n - q) as nat;
        let i0 = clearb(i, p);
        dotv(single_mat(g, n, q).rows[i], s, pow2(n)) ==
            cxv_add(
                cxv_mul(gen_entry(g, bitv(i, p), 0), s[i0]),
                cxv_mul(gen_entry(g, bitv(i, p), 1), s[i0 + pow2(p)]),
            )
    }),
{
    let p = (n - q) as nat;
    lemma_pow2_pos(p);
    lemma_bit_decomp(i, p, n);
    let i0 = clearb(i, p);
    let i1 = i0 + pow2(p);
    let row = single_mat(g, n, q).rows[i];
    assert forall|k: int| 0 <= k < pow2(n) && k != i0 && k != i1 implies (#[trigger] row[k]) == cxv_zero() by {
        if agree_off(i, k, p) {
            lemma_agree_off_cases(i, k, p, n);
            lemma_bit_decomp(k, p, n);
        }
    }
    assert(support2(row, pow2(n), i0, i1));
    lemma_dotv_two_support(row, s, pow2(n), i0, i1);
    lemma_bit_decomp(i0, p, n);
    lemma_bit_decomp(i1, p, n);
    assert(agree_off(i, i0, p));
    assert(agree_off(i, i1, p));
    assert(row[i0] == gen_entry(g, bitv(i, p), 0));
    assert(row[i1] == gen_entry(g, bitv(i, p), 1));
}

proof fn lemma_perm_row_dot(row: Seq<CxV>, s: Seq<CxV>, m: nat, tgt: int)
    requires
        0 <= tgt < m,
        forall|k: int| 0 <= k < m ==> (#[trigger] row[k]) == if k == tgt { cxv_one() } else { cxv_zero() },
    ensures dotv(row, s, m) == s[tgt],
{
    assert(support2(row, m, tgt, tgt));
    lemma_dotv_one_support(row, s, m, tgt);
    lemma_mul_one(s[tgt]);
}

/// Applying the CNOT matrix permutes the amplitudes: amplitude `i` of the
/// result is amplitude `cnot_tgt(i)` of the argument.
pub proof fn lemma_cnot_apply(n: nat, c: nat, t: nat, s: Seq<CxV>, i: int)
    requires 1 <= c <= n, 1 <= t <= n, c != t, s.len() == pow2(n), 0 <= i < pow2(n),
    ensures
        0 <= cnot_tgt(n, c, t, i) < pow2(n),
        apply_amps(cnot_mat(n, c, t).rows, s)[i] == s[cnot_tgt(n, c, t, i)],
{
    let pc = (n - c) as nat;
    let pt = (n - t) as nat;
    lemma_bit_decomp(i, pc, n);
    lemma_flipb_basic(i, pt, n);
    lemma_perm_row_dot(cnot_mat(n, c, t).rows[i], s, pow2(n), cnot_tgt(n, c, t, i));
}

/// Applying the SWAP matrix permutes the amplitudes by exchanging the two
/// qubit bits of each index.
pub proof fn lemma_swap_apply(n: nat, q1: nat, q2: nat, s: Seq<CxV>, i: int)
    requires 1 <= q1 <= n, 1 <= q2 <= n, q1 != q2, s.len() == pow2(n), 0 <= i < pow2(n),
    ensures
        0 <= swap_tgt(n, q1, q2, i) < pow2(n),
        apply_amps(swap_mat(n, q1, q2).rows, s)[i] == s[swap_tgt(n, q1, q2, i)],
{
    let p1 = (n - q1) as nat;
    let p2 = (n - q2) as nat;
    let pp1 = pow2(p1) as int;
    let pp2 = pow2(p2) as int;
    let b1 = bitv(i, p1);
    let b2 = bitv(i, p2);
    lemma_bit_decomp(i, p1, n);
    lemma_bit_decomp(i, p2, n);
    lemma_flipb_basic(i, p1, n);
    lemma_bitv_other(i, p1, p2, n);
    lemma_flipb_basic(flipb(i, p1), p2, n);
    // State the target through explicit products of the two bits.
    assert(b1 * pp1 == if b1 == 1 { pp1 } else { 0 }) by (nonlinear_arith) requires b1 == 0 || b1 == 1;
    assert(b2 * pp2 == if b2 == 1 { pp2 } else { 0 }) by (nonlinear_arith) requires b2 == 0 || b2 == 1;
    assert(b2 * pp1 == if b2 == 1 { pp1 } else { 0 }) by (nonlinear_arith) requires b2 == 0 || b2 == 1;
    assert(b1 * pp2 == if b1 == 1 { pp2 } else { 0 }) by (nonlinear_arith) requires b1 == 0 || b1 == 1;
    if b1 == b2 {
        assert(swap_tgt(n, q1, q2, i) == i);
    } else {
        assert((1 - 2 * b1) * pp1 == if b1 == 1 { -pp1 } else { pp1 }) by (nonlinear_arith) requires b1 == 0 || b1 == 1;
        assert((1 - 2 * bitv(flipb(i, p1), p2)) * pp2 == if b2 == 1 { -pp2 } else { pp2 }) by (nonlinear_arith)
            requires bitv(flipb(i, p1), p2) == b2, b2 == 0 || b2 == 1;
        assert(swap_tgt(n, q1, q2, i) == flipb(flipb(i, p1), p2));
    }
    lemma_perm_row_dot(swap_mat(n, q1, q2).rows[i], s, pow2(n), swap_tgt(n, q1, q2, i));
}

/// Applying Hadamard on the same qubit twice doubles every exact amplitude
/// numerator while the denominator gains sqrt(2) * sqrt(2) = 2: the state
/// vector that the pair (numerators, scale) represents is restored.
pub proof fn lemma_hadamard_involution(n: nat, q: nat, s: Seq<CxV>)
    requires 1 <= q <= n, s.len() == pow2(n),
    ensures ({
        let rows = single_mat(gen_hadamard(), n, q).rows;
        let s2 = apply_amps(rows, apply_amps(rows, s));
        &&& s2.len() == s.len()
        &&& forall|i: int| 0 <= i < s.len() ==> #[trigger] s2[i] == cxv_add(s[i], s[i])
    }),
{
    let p = (n - q) as nat;
    let g = gen_hadamard();
    let rows = single_mat(g, n, q).rows;
    let s1 = apply_amps(rows, s);
    let s2 = apply_amps(rows, s1);
    assert forall|i: int| 0 <= i < s.len() implies #[trigger] s2[i] == cxv_add(s[i], s[i]) by {
        lemma_bit_decomp(i, p, n);
        let i0 = clearb(i, p);
        let i1 = i0 + pow2(p);
        lemma_bit_decomp(i0, p, n);
        lemma_bit_decomp(i1, p, n);
        lemma_single_row_dot(g, n, q, s1, i);
        lemma_single_row_dot(g, n, q, s, i0);
        lemma_single_row_dot(g, n, q, s, i1);
        assert(clearb(i0, p) == i0 && clearb(i1, p) == i0);
        let x = s[i0];
        let y = s[i1];
        lemma_mul_one(x);
        lemma_mul_one(y);
        lemma_mul_neg_one(y);
        assert(s1[i0] == cxv_add(x, y));
        assert(s1[i1] == cxv_add(x, cxv_neg(y)));
        lemma_mul_one(s1[i0]);
        lemma_mul_one(s1[i1]);
        lemma_mul_neg_one(s1[i1]);
        if bitv(i, p) == 0 {
            assert(i == i0);
            assert(s2[i] == cxv_add(cxv_add(x, y), cxv_add(x, cxv_neg(y))));
            assert(s2[i] == cxv_add(x, x));
        } else {
            assert(i == i1);
            assert(s2[i] == cxv_add(cxv_add(x, y), cxv_neg(cxv_add(x, cxv_neg(y)))));
            assert(s2[i] == cxv_add(y, y));
        }
    }
}

/// Applying CNOT with the same control and target twice restores every
/// amplitude exactly.
pub proof fn lemma_cnot_involution_state(n: nat, c: nat, t: nat, s: Seq<CxV>)
    requires 1 <= c <= n, 1 <= t <= n, c != t, s.len() == pow2(n),
    ensures ({
        let rows = cnot_mat(n, c, t).rows;
        let s2 = apply_amps(rows, apply_amps(rows, s));
        &&& s2.len() == s.len()
        &&& forall|i: int| 0 <= i < s.len() ==> #[trigger] s2[i] == s[i]
    }),
{
    let pc = (n - c) as nat;
    let pt = (n - t) as nat;
    let rows = cnot_mat(n, c, t).rows;
    let s1 = apply_amps(rows, s);
    let s2 = apply_amps(rows, s1);
    assert forall|i: int| 0 <= i < s.len() implies #[trigger] s2[i] == s[i] by {
        lemma_cnot_apply(n, c, t, s1, i);
        let j = cnot_tgt(n, c, t, i);
        lemma_cnot_apply(n, c, t, s, j);
        lemma_bit_decomp(i, pc, n);
        if bitv(i, pc) == 1 {
            lemma_flipb_basic(i, pt, n);
            lemma_bitv_other(i, pt, pc, n);
            assert(j == flipb(i, pt));
            assert(bitv(j, pc) == 1);
            assert(cnot_tgt(n, c, t, j) == flipb(flipb(i, pt), pt));
            assert(cnot_tgt(n, c, t, j) == i);
        } else {
            assert(j == i);
            assert(cnot_tgt(n, c, t, j) == i);
        }
    }
}

/// SWAP built as a single permutation matrix equals the sequence of three
/// CNOTs (control q1, target q2), (q2, q1), (q1, q2) applied to any state:
/// both exchange the amplitudes at the two qubit bits of each basis index.
pub proof fn lemma_swap_equals_three_cnots(n: nat, q1: nat, q2: nat, s: Seq<CxV>)
    requires 1 <= q1 <= n, 1 <= q2 <= n, q1 != q2, s.len() == pow2(n),
    ensures ({
        let direct = apply_amps(swap_mat(n, q1, q2).rows, s);
        let r1 = apply_amps(cnot_mat(n, q1, q2).rows, s);
        let r2 = apply_amps(cnot_mat(n, q2, q1).rows, r1);
        let r3 = apply_amps(cnot_mat(n, q1, q2).rows, r2);
        direct == r3
    }),
{
    let pa = (n - q1) as nat;
    let pb = (n - q2) as nat;
    let pp_a = pow2(pa) as int;
    let pp_b = pow2(pb) as int;
    let direct = apply_amps(swap_mat(n, q1, q2).rows, s);
    let r1 = apply_amps(cnot_mat(n, q1, q2).rows, s);
    let r2 = apply_amps(cnot_mat(n, q2, q1).rows, r1);
    let r3 = apply_amps(cnot_mat(n, q1, q2).rows, r2);
    assert forall|i: int| 0 <= i < s.len() implies #[trigger] r3[i] == direct[i] by {
        let b1 = bitv(i, pa);
        let b2 = bitv(i, pb);
        lemma_bit_decomp(i, pa, n);
        lemma_bit_decomp(i, pb, n);
        lemma_swap_apply(n, q1, q2, s, i);
        lemma_cnot_apply(n, q1, q2, r2, i);
        let j1 = cnot_tgt(n, q1, q2, i);
        lemma_flipb_basic(i, pb, n);
        lemma_bitv_other(i, pb, pa, n);
        lemma_cnot_apply(n, q2, q1, r1, j1);
        let j2 = cnot_tgt(n, q2, q1, j1);
        lemma_flipb_basic(j1, pa, n);
        lemma_bitv_other(j1, pa, pb, n);
        lemma_cnot_apply(n, q1, q2, s, j2);
        let j3 = cnot_tgt(n, q1, q2, j2);
        lemma_flipb_basic(j2, pb, n);
        lemma_bitv_other(j2, pb, pa, n);
        // r3[i] == s[j3]; the three flips land on the swapped index.
        assert(b1 * pp_a == if b1 == 1 { pp_a } else { 0 }) by (nonlinear_arith) requires b1 == 0 || b1 == 1;
        assert(b2 * pp_b == if b2 == 1 { pp_b } else { 0 }) by (nonlinear_arith) requires b2 == 0 || b2 == 1;
        assert(b2 * pp_a == if b2 == 1 { pp_a } else { 0 }) by (nonlinear_arith) requires b2 == 0 || b2 == 1;
        assert(b1 * pp_b == if b1 == 1 { pp_b } else { 0 }) by (nonlinear_arith) requires b1 == 0 || b1 == 1;
        if b1 == 0 && b2 == 0 {
            assert(j1 == i && j2 == i && j3 == i);
            assert(swap_tgt(n, q1, q2, i) == i);
        } else if b1 == 1 && b2 == 1 {
            assert(j1 == flipb(i, pb));
            assert(bitv(j1, pb) == 0 && bitv(j1, pa) == 1);
            assert(j2 == j1);
            assert(j3 == flipb(j1, pb));
            assert(j3 == i);
            assert(swap_tgt(n, q1, q2, i) == i);
        } else if b1 == 1 && b2 == 0 {
            assert(j1 == flipb(i, pb));
            assert(j1 == i + pp_b);
            assert(bitv(j1, pb) == 1 && bitv(j1, pa) == 1);
            assert(j2 == flipb(j1, pa));
            assert(j2 == j1 - pp_a);
            assert(bitv(j2, pa) == 0 && bitv(j2, pb) == 1);
            assert(j3 == j2);
            assert(swap_tgt(n, q1, q2, i) == i - pp_a + pp_b);
        } else {
            assert(j1 == i);
            assert(bitv(j1, pb) == 1);
            assert(j2 == flipb(j1, pa));
            assert(j2 == i + pp_a);
            assert(bitv(j2, pa) == 1 && bitv(j2, pb) == 1);
            assert(j3 == flipb(j2, pb));
            assert(j3 == i + pp_a - pp_b);
            assert(swap_tgt(n, q1, q2, i) == i + pp_a - pp_b);
        }
    }
    assert(direct =~= r3);
}


/// Sum of the squared-magnitude integer parts of the amplitudes in
/// `[a, a+len)`.
pub open spec fn sum_p_range(s: Seq<CxV>, a: int, len: nat) -> int
    decreases len,
{
    if len == 0 { 0 } else { sum_p_range(s, a, (len - 1) as nat) + norm_p(s[a + len - 1]) }
}

/// Sum of the squared-magnitude sqrt(2) parts of the amplitudes in
/// `[a, a+len)`.
pub open spec fn sum_q_range(s: Seq<CxV>, a: int, len: nat) -> int
    decreases len,
{
    if len == 0 { 0 } else { sum_q_range(s, a, (len - 1) as nat) + norm_q(s[a + len - 1]) }
}

/// The state's probabilities sum to exactly one: over the common
/// denominator sqrt(2)^scale the integer parts of the squared magnitudes
/// sum to 2^scale and the sqrt(2) parts cancel.
pub open spec fn normalized(s: StateV) -> bool {
    &&& sum_p_range(s.amps, 0, s.amps.len()) == pow2(s.scale)
    &&& sum_q_range(s.amps, 0, s.amps.len()) == 0
}

proof fn lemma_range_split(s: Seq<CxV>, a: int, l1: nat, l2: nat)
    ensures
        sum_p_range(s, a, (l1 + l2) as nat) == sum_p_range(s, a, l1) + sum_p_range(s, a + l1, l2),
        sum_q_range(s, a, (l1 + l2) as nat) == sum_q_range(s, a, l1) + sum_q_range(s, a + l1, l2),
    decreases l2,
{
    if l2 > 0 {
        lemma_range_split(s, a, l1, (l2 - 1) as nat);
    }
}

/// The two norm-sum equations of one index pair under a gate: the pair's
/// contribution is `factor` times what it was.
pub open spec fn pair_ok(old: Seq<CxV>, new: Seq<CxV>, pp: int, factor: int, i: int) -> bool {
    &&& norm_p(new[i]) + norm_p(new[i + pp]) == factor * (norm_p(old[i]) + norm_p(old[i + pp]))
    &&& norm_q(new[i]) + norm_q(new[i + pp]) == factor * (norm_q(old[i]) + norm_q(old[i + pp]))
}

proof fn lemma_paired_halves(old: Seq<CxV>, new: Seq<CxV>, c: int, h: nat, pp: int, factor: int)
    requires forall|j: int| 0 <= j < h ==> #[trigger] pair_ok(old, new, pp, factor, c + j),
    ensures
        sum_p_range(new, c, h) + sum_p_range(new, c + pp, h)
            == factor * (sum_p_range(old, c, h) + sum_p_range(old, c + pp, h)),
        sum_q_range(new, c, h) + sum_q_range(new, c + pp, h)
            == factor * (sum_q_range(old, c, h) + sum_q_range(old, c + pp, h)),
    decreases h,
{
    if h == 0 {
        assert(sum_p_range(new, c, h) + sum_p_range(new, c + pp, h)
            == factor * (sum_p_range(old, c, h) + sum_p_range(old, c + pp, h))) by (nonlinear_arith)
            requires
                sum_p_range(new, c, h) == 0, sum_p_range(new, c + pp, h) == 0,
                sum_p_range(old, c, h) == 0, sum_p_range(old, c + pp, h) == 0;
        assert(sum_q_range(new, c, h) + sum_q_range(new, c + pp, h)
            == factor * (sum_q_range(old, c, h) + sum_q_range(old, c + pp, h))) by (nonlinear_arith)
            requires
                sum_q_range(new, c, h) == 0, sum_q_range(new, c + pp, h) == 0,
                sum_q_range(old, c, h) == 0, sum_q_range(old, c + pp, h) == 0;
    }
    if h > 0 {
        lemma_paired_halves(old, new, c, (h - 1) as nat, pp, factor);
        let i = c + (h - 1);
        assert(pair_ok(old, new, pp, factor, i));
        assert(norm_p(new[c + h - 1]) == norm_p(new[i]) && norm_p(new[c + pp + h - 1]) == norm_p(new[i + pp]));
        assert(norm_p(old[c + h - 1]) == norm_p(old[i]) && norm_p(old[c + pp + h - 1]) == norm_p(old[i + pp]));
        assert(norm_q(new[c + h - 1]) == norm_q(new[i]) && norm_q(new[c + pp + h - 1]) == norm_q(new[i + pp]));
        assert(norm_q(old[c + h - 1]) == norm_q(old[i]) && norm_q(old[c + pp + h - 1]) == norm_q(old[i + pp]));
        assert(sum_p_range(new, c, h) + sum_p_range(new, c + pp, h)
            == factor * (sum_p_range(old, c, h) + sum_p_range(old, c + pp, h))) by (nonlinear_arith)
            requires
                sum_p_range(new, c, (h - 1) as nat) + sum_p_range(new, c + pp, (h - 1) as nat)
                    == factor * (sum_p_range(old, c, (h - 1) as nat) + sum_p_range(old, c + pp, (h - 1) as nat)),
                norm_p(new[i]) + norm_p(new[i + pp]) == factor * (norm_p(old[i]) + norm_p(old[i + pp])),
                sum_p_range(new, c, h) == sum_p_range(new, c, (h - 1) as nat) + norm_p(new[i]),
                sum_p_range(new, c + pp, h) == sum_p_range(new, c + pp, (h - 1) as nat) + norm_p(new[i + pp]),
                sum_p_range(old, c, h) == sum_p_range(old, c, (h - 1) as nat) + norm_p(old[i]),
                sum_p_range(old, c + pp, h) == sum_p_range(old, c + pp, (h - 1) as nat) + norm_p(old[i + pp]);
        assert(sum_q_range(new, c, h) + sum_q_range(new, c + pp, h)
            == factor * (sum_q_range(old, c, h) + sum_q_range(old, c + pp, h))) by (nonlinear_arith)
            requires
                sum_q_range(new, c, (h - 1) as nat) + sum_q_range(new, c + pp, (h - 1) as nat)
                    == factor * (sum_q_range(old, c, (h - 1) as nat) + sum_q_range(old, c + pp, (h - 1) as nat)),
                norm_q(new[i]) + norm_q(new[i + pp]) == factor * (norm_q(old[i]) + norm_q(old[i + pp])),
                sum_q_range(new, c, h) == sum_q_range(new, c, (h - 1) as nat) + norm_q(new[i]),
                sum_q_range(new, c + pp, h) == sum_q_range(new, c + pp, (h - 1) as nat) + norm_q(new[i + pp]),
                sum_q_range(old, c, h) == sum_q_range(old, c, (h - 1) as nat) + norm_q(old[i]),
                sum_q_range(old, c + pp, h) == sum_q_range(old, c + pp, (h - 1) as nat) + norm_q(old[i + pp]);
    }
}

proof fn lemma_blocks(old: Seq<CxV>, new: Seq<CxV>, p: nat, n: nat, blocks: nat, factor: int)
    requires
        p < n,
        blocks <= pow2((n - p - 1) as nat),
        forall|i: int| 0 <= i < pow2(n) && bitv(i, p) == 0 ==>
            #[trigger] pair_ok(old, new, pow2(p) as int, factor, i),
    ensures
        sum_p_range(new, 0, (blocks * 2 * pow2(p)) as nat)
            == factor * sum_p_range(old, 0, (blocks * 2 * pow2(p)) as nat),
        sum_q_range(new, 0, (blocks * 2 * pow2(p)) as nat)
            == factor * sum_q_range(old, 0, (blocks * 2 * pow2(p)) as nat),
    decreases blocks,
{
    let pp = pow2(p) as int;
    lemma_pow2_pos(p);
    if blocks == 0 {
        assert(blocks * 2 * pow2(p) == 0) by (nonlinear_arith) requires blocks == 0;
        assert(sum_p_range(new, 0, (blocks * 2 * pow2(p)) as nat)
            == factor * sum_p_range(old, 0, (blocks * 2 * pow2(p)) as nat)) by (nonlinear_arith)
            requires
                sum_p_range(new, 0, (blocks * 2 * pow2(p)) as nat) == 0,
                sum_p_range(old, 0, (blocks * 2 * pow2(p)) as nat) == 0;
        assert(sum_q_range(new, 0, (blocks * 2 * pow2(p)) as nat)
            == factor * sum_q_range(old, 0, (blocks * 2 * pow2(p)) as nat)) by (nonlinear_arith)
            requires
                sum_q_range(new, 0, (blocks * 2 * pow2(p)) as nat) == 0,
                sum_q_range(old, 0, (blocks * 2 * pow2(p)) as nat) == 0;
    } else {
        lemma_blocks(old, new, p, n, (blocks - 1) as nat, factor);
        let c = (blocks - 1) * 2 * pp;
        assert(c >= 0) by (nonlinear_arith) requires blocks >= 1, pp > 0, c == (blocks - 1) * 2 * pp;
        // Every index in the first half of this block has bit p clear and
        // stays inside the register.
        assert(pow2(n) == pow2((n - p - 1) as nat) * 2 * pp) by {
            lemma_pow2_adds((n - p - 1) as nat, 1);
            lemma2_to64();
            lemma_pow2_adds((n - p) as nat, p);
            assert(pow2((n - p - 1) as nat) * 2 * pp == pow2((n - p) as nat) * pp) by (nonlinear_arith)
                requires pow2((n - p) as nat) == pow2((n - p - 1) as nat) * 2;
        }
        assert(c + 2 * pp <= pow2(n)) by (nonlinear_arith)
            requires
                c == (blocks - 1) * 2 * pp,
                blocks <= pow2((n - p - 1) as nat),
                pow2(n) == pow2((n - p - 1) as nat) * 2 * pp,
                pp > 0;
        assert forall|j: int| 0 <= j < pp implies #[trigger] pair_ok(old, new, pp, factor, c + j) by {
            assert(c + j == pp * (2 * (blocks - 1)) + j) by (nonlinear_arith)
                requires c == (blocks - 1) * 2 * pp;
            lemma_fundamental_div_mod_converse(c + j, pp, 2 * (blocks - 1), j);
            assert((2 * (blocks - 1)) % 2 == 0) by (nonlinear_arith) requires blocks >= 1;
            assert(bitv(c + j, p) == 0);
            assert(0 <= c + j < pow2(n));
        }
        lemma_paired_halves(old, new, c, pp as nat, pp, factor);
        assert(blocks * 2 * pp == (blocks - 1) * 2 * pp + (pp + pp)) by (nonlinear_arith);
        lemma_range_split(new, 0, ((blocks - 1) * 2 * pp) as nat, (pp + pp) as nat);
        lemma_range_split(new, c, pp as nat, pp as nat);
        lemma_range_split(old, 0, ((blocks - 1) * 2 * pp) as nat, (pp + pp) as nat);
        lemma_range_split(old, c, pp as nat, pp as nat);
        assert(sum_p_range(new, 0, (blocks * 2 * pow2(p)) as nat)
            == factor * sum_p_range(old, 0, (blocks * 2 * pow2(p)) as nat)) by (nonlinear_arith)
            requires
                sum_p_range(new, 0, ((blocks - 1) as nat * 2 * pow2(p)) as nat)
                    == factor * sum_p_range(old, 0, ((blocks - 1) as nat * 2 * pow2(p)) as nat),
                sum_p_range(new, 0, ((blocks - 1) as nat * 2 * pow2(p)) as nat)
                    == sum_p_range(new, 0, ((blocks - 1) * 2 * pp) as nat),
                sum_p_range(old, 0, ((blocks - 1) as nat * 2 * pow2(p)) as nat)
                    == sum_p_range(old, 0, ((blocks - 1) * 2 * pp) as nat),
                sum_p_range(new, c, pp as nat) + sum_p_range(new, c + pp, pp as nat)
                    == factor * (sum_p_range(old, c, pp as nat) + sum_p_range(old, c + pp, pp as nat)),
                sum_p_range(new, 0, (blocks * 2 * pow2(p)) as nat)
                    == sum_p_range(new, 0, ((blocks - 1) * 2 * pp) as nat)
                        + sum_p_range(new, c, pp as nat) + sum_p_range(new, c + pp, pp as nat),
                sum_p_range(old, 0, (blocks * 2 * pow2(p)) as nat)
                    == sum_p_range(old, 0, ((blocks - 1) * 2 * pp) as nat)
                        + sum_p_range(old, c, pp as nat) + sum_p_range(old, c + pp, pp as nat);
        assert(sum_q_range(new, 0, (blocks * 2 * pow2(p)) as nat)
            == factor * sum_q_range(old, 0, (blocks * 2 * pow2(p)) as nat)) by (nonlinear_arith)
            requires
                sum_q_range(new, 0, ((blocks - 1) as nat * 2 * pow2(p)) as nat)
                    == factor * sum_q_range(old, 0, ((blocks - 1) as nat * 2 * pow2(p)) as nat),
                sum_q_range(new, 0, ((blocks - 1) as nat * 2 * pow2(p)) as nat)
                    == sum_q_range(new, 0, ((blocks - 1) * 2 * pp) as nat),
                sum_q_range(old, 0, ((blocks - 1) as nat * 2 * pow2(p)) as nat)
                    == sum_q_range(old, 0, ((blocks - 1) * 2 * pp) as nat),
                sum_q_range(new, c, pp as nat) + sum_q_range(new, c + pp, pp as nat)
                    == factor * (sum_q_range(old, c, pp as nat) + sum_q_range(old, c + pp, pp as nat)),
                sum_q_range(new, 0, (blocks * 2 * pow2(p)) as nat)
                    == sum_q_range(new, 0, ((blocks - 1) * 2 * pp) as nat)
                        + sum_q_range(new, c, pp as nat) + sum_q_range(new, c + pp, pp as nat),
                sum_q_range(old, 0, (blocks * 2 * pow2(p)) as nat)
                    == sum_q_range(old, 0, ((blocks - 1) * 2 * pp) as nat)
                        + sum_q_range(old, c, pp as nat) + sum_q_range(old, c + pp, pp as nat);
    }
}

/// If every index pair over bit `p` contributes `factor` times its old
/// norm sums, the whole register's norm sums scale by `factor`.
proof fn lemma_pair_sum_full(old: Seq<CxV>, new: Seq<CxV>, p: nat, n: nat, factor: int)
    requires
        p < n,
        old.len() == pow2(n), new.len() == pow2(n),
        forall|i: int| 0 <= i < pow2(n) && bitv(i, p) == 0 ==>
            #[trigger] pair_ok(old, new, pow2(p) as int, factor, i),
    ensures
        sum_p_range(new, 0, pow2(n)) == factor * sum_p_range(old, 0, pow2(n)),
        sum_q_range(new, 0, pow2(n)) == factor * sum_q_range(old, 0, pow2(n)),
{
    let blocks = pow2((n - p - 1) as nat);
    lemma_blocks(old, new, p, n, blocks, factor);
    assert(blocks * 2 * pow2(p) == pow2(n)) by {
        lemma_pow2_adds((n - p - 1) as nat, 1);
        lemma2_to64();
        lemma_pow2_adds((n - p) as nat, p);
        assert(blocks * 2 * pow2(p) == pow2((n - p) as nat) * pow2(p)) by (nonlinear_arith)
            requires pow2((n - p) as nat) == blocks * 2;
    }
}


/// A one-qubit gate whose generator scales every pair's norm sums by
/// `factor` scales the whole register's norm sums by `factor`.
proof fn lemma_single_gate_sums(g: Gen, n: nat, q: nat, s: Seq<CxV>, factor: int)
    requires
        1 <= q <= n,
        s.len() == pow2(n),
        forall|x: CxV, y: CxV| {
            let u = cxv_add(#[trigger] cxv_mul(gen_entry(g, 0, 0), x), cxv_mul(gen_entry(g, 0, 1), y));
            let v = cxv_add(cxv_mul(gen_entry(g, 1, 0), x), #[trigger] cxv_mul(gen_entry(g, 1, 1), y));
            norm_p(u) + norm_p(v) == factor * (norm_p(x) + norm_p(y))
                && norm_q(u) + norm_q(v) == factor * (norm_q(x) + norm_q(y))
        },
    ensures
        sum_p_range(apply_amps(single_mat(g, n, q).rows, s), 0, pow2(n))
            == factor * sum_p_range(s, 0, pow2(n)),
        sum_q_range(apply_amps(single_mat(g, n, q).rows, s), 0, pow2(n))
            == factor * sum_q_range(s, 0, pow2(n)),
{
    let p = (n - q) as nat;
    let pp = pow2(p) as int;
    let s1 = apply_amps(single_mat(g, n, q).rows, s);
    lemma_pow2_pos(p);
    assert forall|i: int| 0 <= i < pow2(n) && bitv(i, p) == 0 implies
        #[trigger] pair_ok(s, s1, pp, factor, i) by {
        lemma_bit_decomp(i, p, n);
        assert(clearb(i, p) == i);
        lemma_single_row_dot(g, n, q, s, i);
        lemma_single_row_dot(g, n, q, s, i + pp);
        lemma_bit_decomp(i + pp, p, n);
        assert(bitv(i + pp, p) == 1 && clearb(i + pp, p) == i);
        let x = s[i];
        let y = s[i + pp];
        assert(s1[i] == cxv_add(cxv_mul(gen_entry(g, 0, 0), x), cxv_mul(gen_entry(g, 0, 1), y)));
        assert(s1[i + pp] == cxv_add(cxv_mul(gen_entry(g, 1, 0), x), cxv_mul(gen_entry(g, 1, 1), y)));
    }
    lemma_pair_sum_full(s, s1, p, n, factor);
}

/// Applying a CNOT matrix permutes the amplitudes, so the norm sums do not
/// change.
proof fn lemma_cnot_sums(n: nat, c: nat, t: nat, s: Seq<CxV>)
    requires 1 <= c <= n, 1 <= t <= n, c != t, s.len() == pow2(n),
    ensures
        sum_p_range(apply_amps(cnot_mat(n, c, t).rows, s), 0, pow2(n)) == sum_p_range(s, 0, pow2(n)),
        sum_q_range(apply_amps(cnot_mat(n, c, t).rows, s), 0, pow2(n)) == sum_q_range(s, 0, pow2(n)),
{
    let pc = (n - c) as nat;
    let pt = (n - t) as nat;
    let pp = pow2(pt) as int;
    let s1 = apply_amps(cnot_mat(n, c, t).rows, s);
    lemma_pow2_pos(pt);
    assert forall|i: int| 0 <= i < pow2(n) && bitv(i, pt) == 0 implies
        #[trigger] pair_ok(s, s1, pp, 1, i) by {
        lemma_bit_decomp(i, pt, n);
        assert(clearb(i, pt) == i);
        lemma_bit_decomp(i + pp, pt, n);
        lemma_flipb_basic(i, pt, n);
        assert(flipb(i, pt) == i + pp);
        lemma_bitv_other(i, pt, pc, n);
        lemma_cnot_apply(n, c, t, s, i);
        lemma_cnot_apply(n, c, t, s, i + pp);
        lemma_flipb_basic(i + pp, pt, n);
        if bitv(i, pc) == 1 {
            assert(cnot_tgt(n, c, t, i) == i + pp);
            assert(bitv(i + pp, pc) == 1);
            assert(cnot_tgt(n, c, t, i + pp) == flipb(i + pp, pt));
            assert(flipb(i + pp, pt) == i);
        } else {
            assert(cnot_tgt(n, c, t, i) == i);
            assert(bitv(i + pp, pc) == 0);
            assert(cnot_tgt(n, c, t, i + pp) == i + pp);
        }
    }
    lemma_pair_sum_full(s, s1, pt, n, 1);
    assert(1 * sum_p_range(s, 0, pow2(n)) == sum_p_range(s, 0, pow2(n))) by (nonlinear_arith);
    assert(1 * sum_q_range(s, 0, pow2(n)) == sum_q_range(s, 0, pow2(n))) by (nonlinear_arith);
}

/// One operation of the circuit driver preserves normalization: the
/// probabilities still sum to exactly one afterwards (unitarity, one step).
pub proof fn lemma_step_preserves_normalized(s: StateV, op: GateOp, n: nat)
    requires
        op_ok(op, n), 1 <= n,
        s.amps.len() == pow2(n),
        normalized(s),
    ensures
        normalized(step_state(s, op, n)),
        step_state(s, op, n).amps.len() == pow2(n),
{
    lemma_pow2_pos(n);
    if op_is_noop(op.gate) {
        return;
    }
    let q = op.q1 as nat;
    let s1 = step_state(s, op, n);
    lemma_pow2_adds(s.scale, 1);
    lemma2_to64();
    assert(pow2(s.scale + 1) == 2 * pow2(s.scale));
    match op.gate {
        Gate::Identity | Gate::Measurement | Gate::Unknown => {
            let g = gen_identity();
            assert forall|x: CxV, y: CxV| {
                let u = cxv_add(#[trigger] cxv_mul(gen_entry(g, 0, 0), x), cxv_mul(gen_entry(g, 0, 1), y));
                let v = cxv_add(cxv_mul(gen_entry(g, 1, 0), x), #[trigger] cxv_mul(gen_entry(g, 1, 1), y));
                norm_p(u) + norm_p(v) == 1 * (norm_p(x) + norm_p(y))
                    && norm_q(u) + norm_q(v) == 1 * (norm_q(x) + norm_q(y))
            } by {
                lemma_mul_one(x);
                lemma_mul_one(y);
                lemma_mul_zero(x);
                lemma_mul_zero(y);
            }
            lemma_single_gate_sums(g, n, q, s.amps, 1);
        },
        Gate::Hadamard => {
            let g = gen_hadamard();
            assert forall|x: CxV, y: CxV| {
                let u = cxv_add(#[trigger] cxv_mul(gen_entry(g, 0, 0), x), cxv_mul(gen_entry(g, 0, 1), y));
                let v = cxv_add(cxv_mul(gen_entry(g, 1, 0), x), #[trigger] cxv_mul(gen_entry(g, 1, 1), y));
                norm_p(u) + norm_p(v) == 2 * (norm_p(x) + norm_p(y))
                    && norm_q(u) + norm_q(v) == 2 * (norm_q(x) + norm_q(y))
            } by {
                lemma_mul_one(x);
                lemma_mul_one(y);
                lemma_mul_neg_one(y);
                lemma_norm_h_pair(x, y);
            }
            lemma_single_gate_sums(g, n, q, s.amps, 2);
        },
        Gate::PauliX => {
            let g = gen_pauli_x();
            assert forall|x: CxV, y: CxV| {
                let u = cxv_add(#[trigger] cxv_mul(gen_entry(g, 0, 0), x), cxv_mul(gen_entry(g, 0, 1), y));
                let v = cxv_add(cxv_mul(gen_entry(g, 1, 0), x), #[trigger] cxv_mul(gen_entry(g, 1, 1), y));
                norm_p(u) + norm_p(v) == 1 * (norm_p(x) + norm_p(y))
                    && norm_q(u) + norm_q(v) == 1 * (norm_q(x) + norm_q(y))
            } by {
                lemma_mul_one(x);
                lemma_mul_one(y);
                lemma_mul_zero(x);
                lemma_mul_zero(y);
            }
            lemma_single_gate_sums(g, n, q, s.amps, 1);
        },
        Gate::PauliY => {
            let g = gen_pauli_y();
            assert forall|x: CxV, y: CxV| {
                let u = cxv_add(#[trigger] cxv_mul(gen_entry(g, 0, 0), x), cxv_mul(gen_entry(g, 0, 1), y));
                let v = cxv_add(cxv_mul(gen_entry(g, 1, 0), x), #[trigger] cxv_mul(gen_entry(g, 1, 1), y));
                norm_p(u) + norm_p(v) == 1 * (norm_p(x) + norm_p(y))
                    && norm_q(u) + norm_q(v) == 1 * (norm_q(x) + norm_q(y))
            } by {
                lemma_mul_zero(x);
                lemma_mul_zero(y);
                lemma_norm_mul_i(gen_entry(g, 0, 1), y);
                lemma_norm_mul_i(gen_entry(g, 1, 0), x);
            }
            lemma_single_gate_sums(g, n, q, s.amps, 1);
        },
        Gate::PauliZ => {
            let g = gen_pauli_z();
            assert forall|x: CxV, y: CxV| {
                let u = cxv_add(#[trigger] cxv_mul(gen_entry(g, 0, 0), x), cxv_mul(gen_entry(g, 0, 1), y));
                let v = cxv_add(cxv_mul(gen_entry(g, 1, 0), x), #[trigger] cxv_mul(gen_entry(g, 1, 1), y));
                norm_p(u) + norm_p(v) == 1 * (norm_p(x) + norm_p(y))
                    && norm_q(u) + norm_q(v) == 1 * (norm_q(x) + norm_q(y))
            } by {
                lemma_mul_one(x);
                lemma_mul_zero(x);
                lemma_mul_zero(y);
                lemma_mul_neg_one(y);
                lemma_norm_neg(y);
            }
            lemma_single_gate_sums(g, n, q, s.amps, 1);
        },
        Gate::PhaseS => {
            let g = gen_phase_s();
            assert forall|x: CxV, y: CxV| {
                let u = cxv_add(#[trigger] cxv_mul(gen_entry(g, 0, 0), x), cxv_mul(gen_entry(g, 0, 1), y));
                let v = cxv_add(cxv_mul(gen_entry(g, 1, 0), x), #[trigger] cxv_mul(gen_entry(g, 1, 1), y));
                norm_p(u) + norm_p(v) == 1 * (norm_p(x) + norm_p(y))
                    && norm_q(u) + norm_q(v) == 1 * (norm_q(x) + norm_q(y))
            } by {
                lemma_mul_one(x);
                lemma_mul_zero(x);
                lemma_mul_zero(y);
                lemma_norm_mul_i(gen_entry(g, 1, 1), y);
            }
            lemma_single_gate_sums(g, n, q, s.amps, 1);
        },
        Gate::TGate => {
            let g = gen_t();
            assert forall|x: CxV, y: CxV| {
                let u = cxv_add(#[trigger] cxv_mul(gen_entry(g, 0, 0), x), cxv_mul(gen_entry(g, 0, 1), y));
                let v = cxv_add(cxv_mul(gen_entry(g, 1, 0), x), #[trigger] cxv_mul(gen_entry(g, 1, 1), y));
                norm_p(u) + norm_p(v) == 2 * (norm_p(x) + norm_p(y))
                    && norm_q(u) + norm_q(v) == 2 * (norm_q(x) + norm_q(y))
            } by {
                lemma_mul_zero(x);
                lemma_mul_zero(y);
                lemma_norm_mul_sqrt2(gen_entry(g, 0, 0), x);
                lemma_norm_mul_one_plus_i(gen_entry(g, 1, 1), y);
            }
            lemma_single_gate_sums(g, n, q, s.amps, 2);
        },
        Gate::Cnot => {
            lemma_cnot_sums(n, op.q1 as nat, op.q2 as nat, s.amps);
        },
        Gate::Swap => {
            lemma_swap_equals_three_cnots(n, op.q1 as nat, op.q2 as nat, s.amps);
            let r1 = apply_amps(cnot_mat(n, op.q1 as nat, op.q2 as nat).rows, s.amps);
            let r2 = apply_amps(cnot_mat(n, op.q2 as nat, op.q1 as nat).rows, r1);
            lemma_cnot_sums(n, op.q1 as nat, op.q2 as nat, s.amps);
            lemma_cnot_sums(n, op.q2 as nat, op.q1 as nat, r1);
            lemma_cnot_sums(n, op.q1 as nat, op.q2 as nat, r2);
        },
    }
}

/// Unitarity: after any prefix of a valid gate sequence the state is still
/// normalized, so the probabilities sum to exactly one after every step.
pub proof fn lemma_run_preserves_normalized(s: StateV, ops: Seq<GateOp>, n: nat, k: int)
    requires
        1 <= n,
        s.amps.len() == pow2(n),
        normalized(s),
        0 <= k <= ops.len(),
        forall|kk: int| 0 <= kk < ops.len() ==> op_ok(#[trigger] ops[kk], n),
    ensures
        normalized(run_upto(s, ops, n, k)),
        run_upto(s, ops, n, k).amps.len() == pow2(n),
    decreases k,
{
    if k > 0 {
        lemma_run_preserves_normalized(s, ops, n, k - 1);
        lemma_step_preserves_normalized(run_upto(s, ops, n, k - 1), ops[k - 1], n);
    }
}


proof fn lemma_sum_point(s: Seq<CxV>, a: int, len: nat, j: int)
    requires
        forall|k: int| a <= k < a + len && k != j ==> (#[trigger] s[k]) == cxv_zero(),
        a <= j < a + len ==> s[j] == cxv_one(),
    ensures
        sum_p_range(s, a, len) == if a <= j < a + len { 1int } else { 0int },
        sum_q_range(s, a, len) == 0,
    decreases len,
{
    if len > 0 {
        lemma_sum_point(s, a, (len - 1) as nat, j);
        let last = a + len - 1;
        if last == j {
            assert(s[last] == cxv_one());
            assert(norm_p(s[last]) == 1int * 1int + 2int * 0int * 0int + 0int * 0int + 2int * 0int * 0int);
            assert(norm_q(s[last]) == 2int * (1int * 0int + 0int * 0int));
        } else {
            assert(s[last] == cxv_zero());
            assert(norm_p(s[last]) == 0int * 0int + 2int * 0int * 0int + 0int * 0int + 2int * 0int * 0int);
            assert(norm_q(s[last]) == 2int * (0int * 0int + 0int * 0int));
        }
    }
}

/// The basis index that the declared bits select: bit `k` of the register
/// is the classical value of qubit `k+1`, most significant first.
pub open spec fn basis_index(bits: Seq<bool>, k: int) -> int
    decreases k,
{
    if k <= 1 {
        if bits[0] { 1int } else { 0int }
    } else {
        2 * basis_index(bits, k - 1) + if bits[k - 1] { 1int } else { 0int }
    }
}

/// The initial register is the basis state at `basis_index`: that one
/// amplitude is 1 and all others are 0.
proof fn lemma_init_point(bits: Seq<bool>, k: int)
    requires 1 <= k <= bits.len(),
    ensures ({
        let st = init_state(bits, k);
        &&& st.amps.len() == pow2(k as nat)
        &&& st.scale == 0
        &&& 0 <= basis_index(bits, k) < pow2(k as nat)
        &&& st.amps[basis_index(bits, k)] == cxv_one()
        &&& forall|i: int| 0 <= i < st.amps.len() && i != basis_index(bits, k)
            ==> (#[trigger] st.amps[i]) == cxv_zero()
    }),
    decreases k,
{
    lemma2_to64();
    if k <= 1 {
        let st = init_state(bits, k);
        assert(st == basis_state(bits[0]));
        assert(st.amps.len() == 2);
    } else {
        lemma_init_point(bits, k - 1);
        let prev = init_state(bits, k - 1);
        let b = basis_state(bits[k - 1]);
        let st = init_state(bits, k);
        assert(st == tensor(prev, b));
        let j0 = basis_index(bits, k - 1);
        let bbit: int = if bits[k - 1] { 1 } else { 0 };
        let idx = 2 * j0 + bbit;
        lemma_pow2_adds((k - 1) as nat, 1);
        assert(st.amps.len() == pow2(k as nat)) by (nonlinear_arith)
            requires
                st.amps.len() == prev.amps.len() * 2,
                prev.amps.len() == pow2((k - 1) as nat),
                pow2(k as nat) == pow2((k - 1) as nat) * pow2(1),
                pow2(1) == 2;
        assert forall|i: int| 0 <= i < st.amps.len() implies
            (#[trigger] st.amps[i]) == (if i == idx { cxv_one() } else { cxv_zero() }) by {
            lemma_fundamental_div_mod(i, 2);
            vstd::arithmetic::div_mod::lemma_mod_bound(i, 2);
            let hi = i / 2;
            let lo = i % 2;
            assert(hi < prev.amps.len()) by (nonlinear_arith)
                requires i < prev.amps.len() * 2, i == 2 * hi + lo, 0 <= lo < 2;
            assert(st.amps[i] == cxv_mul(prev.amps[hi], b.amps[lo]));
            if prev.amps[hi] == cxv_zero() {
                lemma_mul_zero(b.amps[lo]);
            } else {
                assert(hi == j0 && prev.amps[hi] == cxv_one());
                lemma_mul_one(b.amps[lo]);
                assert(st.amps[i] == b.amps[lo]);
            }
            if i == idx {
                assert(hi == j0 && lo == bbit) by (nonlinear_arith)
                    requires i == 2 * hi + lo, i == 2 * j0 + bbit, 0 <= lo < 2, 0 <= bbit < 2;
            } else {
                if hi == j0 {
                    assert(lo != bbit) by (nonlinear_arith)
                        requires i == 2 * hi + lo, i != 2 * j0 + bbit, hi == j0;
                }
            }
        }
        assert(0 <= idx < st.amps.len()) by (nonlinear_arith)
            requires 0 <= j0 < prev.amps.len(), 0 <= bbit < 2, st.amps.len() == prev.amps.len() * 2,
                idx == 2 * j0 + bbit;
    }
}

/// The register built from the declared bits is normalized.
pub proof fn lemma_init_normalized(bits: Seq<bool>, k: int)
    requires 1 <= k <= bits.len(),
    ensures
        normalized(init_state(bits, k)),
        init_state(bits, k).amps.len() == pow2(k as nat),
        init_state(bits, k).scale == 0,
{
    lemma_init_point(bits, k);
    let st = init_state(bits, k);
    lemma_sum_point(st.amps, 0, st.amps.len(), basis_index(bits, k));
    lemma2_to64();
}

/// Unitarity for whole circuit runs: starting from the declared register,
/// after every step of any valid operation sequence the squared amplitude
/// magnitudes still sum to exactly one.
pub proof fn lemma_circuit_unitarity(bits: Seq<bool>, ops: Seq<GateOp>, k: int)
    requires
        1 <= bits.len(),
        0 <= k <= ops.len(),
        forall|kk: int| 0 <= kk < ops.len() ==> op_ok(#[trigger] ops[kk], bits.len() as nat),
    ensures
        normalized(run_upto(init_state(bits, bits.len() as int), ops, bits.len() as nat, k)),
{
    lemma_init_normalized(bits, bits.len() as int);
    lemma_run_preserves_normalized(init_state(bits, bits.len() as int), ops, bits.len() as nat, k);
}

} // verus!
