use vstd::prelude::*;
use vstd::arithmetic::power2::pow2;
use vstd::arithmetic::power2::lemma_pow2_adds;
use vstd::arithmetic::power2::lemma_pow2_pos;
use vstd::arithmetic::power2::lemma_pow2_strictly_increases;
use vstd::arithmetic::power2::lemma2_to64;
use vstd::arithmetic::div_mod::lemma_fundamental_div_mod;
use vstd::arithmetic::div_mod::lemma_fundamental_div_mod_converse;
use vstd::arithmetic::div_mod::lemma_mod_multiples_vanish;

verus! {

/// The bit of `i` at position `p` (0 = least significant), as 0 or 1.
pub open spec fn bitv(i: int, p: nat) -> int {
    (i / (pow2(p) as int)) % 2
}

/// `i` with its bit at position `p` cleared.
pub open spec fn clearb(i: int, p: nat) -> int {
    i - bitv(i, p) * (pow2(p) as int)
}

/// `i` and `j` have the same bits everywhere off position `p`, stated
/// additively: clearing bit `p` of each gives the same index.
pub open spec fn agree_off(i: int, j: int, p: nat) -> bool {
    clearb(i, p) == clearb(j, p)
}

/// `i` with bit `p` flipped.
pub open spec fn flipb(i: int, p: nat) -> int {
    clearb(i, p) + (1 - bitv(i, p)) * (pow2(p) as int)
}

/// 2^e, executable.
pub fn pow2_exec(e: usize) -> (r: usize)
    requires e <= 16,
    ensures r == pow2(e as nat), r >= 1, r <= 0x10000,
{
    proof { lemma2_to64(); }
    let mut r: usize = 1;
    let mut i: usize = 0;
    while i < e
        invariant i <= e, e <= 16, r == pow2(i as nat), 1 <= r, r <= 0x10000,
        decreases e - i,
    {
        proof {
            lemma_pow2_adds(i as nat, 1);
            lemma2_to64();
            if i + 1 < 16 {
                lemma_pow2_strictly_increases((i + 1) as nat, 16);
            }
        }
        r = r * 2;
        i += 1;
    }
    r
}

/// The basic facts about clearing and setting one bit of an index below
/// 2^n: the bit is 0 or 1, the cleared index keeps the range, and setting
/// the bit stays below 2^n.
pub proof fn lemma_bit_decomp(i: int, p: nat, n: nat)
    requires 0 <= i < pow2(n), p < n,
    ensures
        bitv(i, p) == 0 || bitv(i, p) == 1,
        0 <= clearb(i, p) <= i,
        clearb(i, p) + pow2(p) < pow2(n),
        bitv(clearb(i, p), p) == 0,
        bitv(clearb(i, p) + pow2(p), p) == 1,
        clearb(clearb(i, p), p) == clearb(i, p),
        clearb(clearb(i, p) + pow2(p), p) == clearb(i, p),
{
    let pp = pow2(p) as int;
    let k = pow2((n - p - 1) as nat) as int;
    lemma_pow2_pos(p);
    lemma_pow2_pos((n - p - 1) as nat);
    lemma_fundamental_div_mod(i, pp);
    let q = i / pp;
    let lo = i % pp;
    lemma_fundamental_div_mod(q, 2);
    let b = q % 2;
    let hi = q / 2;
    assert(i == (2 * hi + b) * pp + lo) by (nonlinear_arith)
        requires i == pp * q + lo, q == 2 * hi + b;
    assert(bitv(i, p) == b);
    assert(clearb(i, p) == 2 * hi * pp + lo) by (nonlinear_arith)
        requires clearb(i, p) == i - b * pp, i == (2 * hi + b) * pp + lo;
    // hi is bounded because i < 2^n == k * 2 * pp
    assert(pow2(n) == k * (2 * pp)) by {
        lemma2_to64();
        lemma_pow2_adds((n - p - 1) as nat, 1);
        lemma_pow2_adds((n - p) as nat, p);
        assert(pow2((n - p) as nat) == pow2((n - p - 1) as nat) * 2);
        assert(k * (2 * pp) == (k * 2) * pp) by (nonlinear_arith);
    }
    assert(0 <= lo < pp);
    assert(0 <= b <= 1);
    assert(hi >= 0) by (nonlinear_arith)
        requires i >= 0, i == (2 * hi + b) * pp + lo, 0 <= lo < pp, 0 <= b <= 1, pp > 0;
    assert(hi < k) by (nonlinear_arith)
        requires i < k * (2 * pp), i == (2 * hi + b) * pp + lo, 0 <= lo < pp, 0 <= b <= 1, pp > 0, k > 0;
    assert(clearb(i, p) + pp < pow2(n)) by (nonlinear_arith)
        requires
            clearb(i, p) == 2 * hi * pp + lo,
            pow2(n) == k * (2 * pp),
            hi < k, hi >= 0, 0 <= lo < pp, pp > 0;
    let c = clearb(i, p);
    assert(c == pp * (2 * hi) + lo) by (nonlinear_arith)
        requires c == 2 * hi * pp + lo;
    vstd::arithmetic::div_mod::lemma_fundamental_div_mod_converse(c, pp, 2 * hi, lo);
    assert(c / pp == 2 * hi);
    assert(bitv(c, p) == (2 * hi) % 2);
    assert((2 * hi) % 2 == 0) by (nonlinear_arith) requires hi >= 0;
    let d = c + pp;
    assert(d == pp * (2 * hi + 1) + lo) by (nonlinear_arith)
        requires c == pp * (2 * hi) + lo, d == c + pp;
    vstd::arithmetic::div_mod::lemma_fundamental_div_mod_converse(d, pp, 2 * hi + 1, lo);
    assert(bitv(d, p) == (2 * hi + 1) % 2);
    assert((2 * hi + 1) % 2 == 1) by (nonlinear_arith) requires hi >= 0;
    assert(clearb(c, p) == c - 0 * pp);
    assert(clearb(d, p) == d - 1 * pp);
}

/// Two indices agree off bit `p` exactly when the second is the first with
/// its bit at `p` replaced; in particular each row of a one-qubit gate
/// matrix meets at most the two columns `clearb(i,p)` and `clearb(i,p)+2^p`.
pub proof fn lemma_agree_off_cases(i: int, j: int, p: nat, n: nat)
    requires 0 <= i < pow2(n), 0 <= j < pow2(n), p < n, agree_off(i, j, p),
    ensures j == clearb(i, p) + bitv(j, p) * pow2(p),
{
    lemma_bit_decomp(i, p, n);
    lemma_bit_decomp(j, p, n);
}


/// Flipping one bit: the result stays in range, the bit inverts, the rest
/// of the index is untouched, and flipping twice restores the index.
pub proof fn lemma_flipb_basic(i: int, p: nat, n: nat)
    requires 0 <= i < pow2(n), p < n,
    ensures
        0 <= flipb(i, p) < pow2(n),
        bitv(flipb(i, p), p) == 1 - bitv(i, p),
        clearb(flipb(i, p), p) == clearb(i, p),
        flipb(flipb(i, p), p) == i,
        flipb(i, p) == i + (1 - 2 * bitv(i, p)) * (pow2(p) as int),
{
    lemma_bit_decomp(i, p, n);
    let b = bitv(i, p);
    let pp = pow2(p) as int;
    if b == 0 {
        assert(b * pp == 0) by (nonlinear_arith) requires b == 0;
        assert((1 - 2 * b) * pp == pp) by (nonlinear_arith) requires b == 0;
        assert((1 - b) * pp == pp) by (nonlinear_arith) requires b == 0;
        assert(flipb(i, p) == clearb(i, p) + pp);
        lemma_bit_decomp(clearb(i, p) + pp, p, n);
        assert((1 - bitv(clearb(i, p) + pp, p)) * pp == 0) by (nonlinear_arith)
            requires bitv(clearb(i, p) + pp, p) == 1;
        assert(bitv(clearb(i, p) + pp, p) * pp == pp) by (nonlinear_arith)
            requires bitv(clearb(i, p) + pp, p) == 1;
    } else {
        assert(b * pp == pp) by (nonlinear_arith) requires b == 1;
        assert((1 - 2 * b) * pp == -pp) by (nonlinear_arith) requires b == 1;
        assert((1 - b) * pp == 0) by (nonlinear_arith) requires b == 1;
        assert(flipb(i, p) == clearb(i, p));
        lemma_bit_decomp(clearb(i, p), p, n);
        assert(bitv(clearb(i, p), p) * pp == 0) by (nonlinear_arith)
            requires bitv(clearb(i, p), p) == 0;
        assert((1 - bitv(clearb(i, p), p)) * pp == pp) by (nonlinear_arith)
            requires bitv(clearb(i, p), p) == 0;
    }
}

/// Flipping the bit at `p` does not change the bit at any other position.
#[verifier::rlimit(40)]
pub proof fn lemma_bitv_other(i: int, p: nat, pq: nat, n: nat)
    requires p < n, pq < n, p != pq, 0 <= i < pow2(n),
    ensures bitv(flipb(i, p), pq) == bitv(i, pq),
{
    lemma_bit_decomp(i, p, n);
    lemma_flipb_basic(i, p, n);
    let b = bitv(i, p);
    let pp = pow2(p) as int;
    let pqq = pow2(pq) as int;
    lemma_pow2_pos(p);
    lemma_pow2_pos(pq);
    let j = flipb(i, p);
    let d = 1 - 2 * b;
    assert(j == i + d * pp);
    if p > pq {
        let e = (p - pq) as nat;
        let ee = pow2(e) as int;
        lemma_pow2_pos(e);
        lemma_pow2_adds(pq, e);
        assert(pp == pqq * ee);
        assert(j == i + (d * ee) * pqq) by (nonlinear_arith)
            requires j == i + d * pp, pp == pqq * ee;
        vstd::arithmetic::div_mod::lemma_hoist_over_denominator(i, d * ee, pow2(pq));
        assert(j / pqq == i / pqq + d * ee);
        let e1 = pow2((e - 1) as nat) as int;
        lemma_pow2_adds((e - 1) as nat, 1);
        lemma2_to64();
        assert(ee == e1 * 2);
        assert(d * ee == 2 * (d * e1)) by (nonlinear_arith) requires ee == e1 * 2;
        lemma_mod_multiples_vanish(d * e1, i / pqq, 2);
        assert((2 * (d * e1) + i / pqq) % 2 == (i / pqq) % 2);
        assert(bitv(j, pq) == (i / pqq) % 2);
    } else {
        // p < pq: the flip happens inside the low part of the pq split.
        lemma_fundamental_div_mod(i, pqq);
        vstd::arithmetic::div_mod::lemma_mod_bound(i, pqq);
        let q = i / pqq;
        let r = i % pqq;
        assert(0 <= r < pqq);
        let f = pow2((pq - p) as nat) as int;
        lemma_pow2_adds(p, (pq - p) as nat);
        assert(pqq == pp * f);
        assert(i == r + (q * f) * pp) by (nonlinear_arith)
            requires i == pqq * q + r, pqq == pp * f;
        vstd::arithmetic::div_mod::lemma_hoist_over_denominator(r, q * f, pow2(p));
        assert(i / pp == r / pp + q * f);
        let f1 = pow2((pq - p - 1) as nat) as int;
        lemma_pow2_adds((pq - p - 1) as nat, 1);
        lemma2_to64();
        assert(f == f1 * 2);
        assert(q * f == 2 * (q * f1)) by (nonlinear_arith) requires f == f1 * 2;
        lemma_mod_multiples_vanish(q * f1, r / pp, 2);
        assert((2 * (q * f1) + r / pp) % 2 == (r / pp) % 2);
        assert(b == (r / pp) % 2);
        assert(b == bitv(r, p));
        lemma_bit_decomp(r, p, pq);
        if b == 1 {
            assert((1 - 2 * b) * pp == -pp) by (nonlinear_arith) requires b == 1;
            assert(j == i - pp);
            assert(r >= pp);
            assert(j == pqq * q + (r - pp));
            assert(j == q * pqq + (r - pp)) by (nonlinear_arith)
                requires j == pqq * q + (r - pp);
            assert(0 <= r - pp < pqq);
            lemma_fundamental_div_mod_converse(j, pqq, q, r - pp);
        } else {
            assert((1 - 2 * b) * pp == pp) by (nonlinear_arith) requires b == 0;
            assert(j == i + pp);
            assert(b * pp == 0) by (nonlinear_arith) requires b == 0;
            assert(r == clearb(r, p));
            assert(r + pp < pqq);
            assert(j == pqq * q + (r + pp));
            assert(j == q * pqq + (r + pp)) by (nonlinear_arith)
                requires j == pqq * q + (r + pp);
            assert(0 <= r + pp < pqq);
            lemma_fundamental_div_mod_converse(j, pqq, q, r + pp);
        }
        assert(j / pqq == q);
        assert(bitv(j, pq) == q % 2);
        assert(bitv(i, pq) == q % 2);
    }
}

} // verus!
