use vstd::prelude::*;
use vstd::arithmetic::power2::pow2;
use crate::cx::{CxV, Cx, cxv_zero, cxv_one, cxv_add, cxv_mul, cx_abs_le, amp_bound, tensor_bound, lemma_mul_small_bound, lemma_mul_zero};
use crate::bits::{bitv, clearb, agree_off, flipb, pow2_exec, lemma_bit_decomp, lemma_agree_off_cases};
use crate::QError;

verus! {

/// A 2x2 generator matrix with a power-of-1/sqrt(2) scale: the local gate
/// that the builder embeds into the full register.
pub struct Gen {
    pub g00: CxV,
    pub g01: CxV,
    pub g10: CxV,
    pub g11: CxV,
    pub scale: nat,
}

pub open spec fn gen_identity() -> Gen {
    Gen { g00: cxv_one(), g01: cxv_zero(), g10: cxv_zero(), g11: cxv_one(), scale: 0 }
}

/// H = [[1, 1], [1, -1]] / sqrt(2).
pub open spec fn gen_hadamard() -> Gen {
    Gen {
        g00: cxv_one(),
        g01: cxv_one(),
        g10: cxv_one(),
        g11: CxV { ra: -1, rb: 0, ia: 0, ib: 0 },
        scale: 1,
    }
}

/// X = [[0, 1], [1, 0]].
pub open spec fn gen_pauli_x() -> Gen {
    Gen { g00: cxv_zero(), g01: cxv_one(), g10: cxv_one(), g11: cxv_zero(), scale: 0 }
}

/// Y = [[0, -i], [i, 0]].
pub open spec fn gen_pauli_y() -> Gen {
    Gen {
        g00: cxv_zero(),
        g01: CxV { ra: 0, rb: 0, ia: -1, ib: 0 },
        g10: CxV { ra: 0, rb: 0, ia: 1, ib: 0 },
        g11: cxv_zero(),
        scale: 0,
    }
}

/// Z = [[1, 0], [0, -1]].
pub open spec fn gen_pauli_z() -> Gen {
    Gen {
        g00: cxv_one(),
        g01: cxv_zero(),
        g10: cxv_zero(),
        g11: CxV { ra: -1, rb: 0, ia: 0, ib: 0 },
        scale: 0,
    }
}

/// S = diag(1, i).
pub open spec fn gen_phase_s() -> Gen {
    Gen {
        g00: cxv_one(),
        g01: cxv_zero(),
        g10: cxv_zero(),
        g11: CxV { ra: 0, rb: 0, ia: 1, ib: 0 },
        scale: 0,
    }
}

/// T = diag(1, e^{i pi/4}) = diag(sqrt(2), 1 + i) / sqrt(2).
pub open spec fn gen_t() -> Gen {
    Gen {
        g00: CxV { ra: 0, rb: 1, ia: 0, ib: 0 },
        g01: cxv_zero(),
        g10: cxv_zero(),
        g11: CxV { ra: 1, rb: 0, ia: 1, ib: 0 },
        scale: 1,
    }
}

pub open spec fn gen_entry(g: Gen, bi: int, bj: int) -> CxV {
    if bi == 0 && bj == 0 { g.g00 }
    else if bi == 0 { g.g01 }
    else if bj == 0 { g.g10 }
    else { g.g11 }
}

/// Entry (i, j) of the Kronecker embedding of the generator `g` at bit
/// position `p`: the generator entry selected by the two bits at `p` when
/// `i` and `j` agree everywhere else, and 0 otherwise.
pub open spec fn single_entry(g: Gen, p: nat, i: int, j: int) -> CxV {
    if agree_off(i, j, p) { gen_entry(g, bitv(i, p), bitv(j, p)) } else { cxv_zero() }
}

/// The image of basis index `i` under CNOT with control qubit `c` and
/// target qubit `t` (1-indexed): flip the target bit when the control bit
/// is set.
pub open spec fn cnot_tgt(n: nat, c: nat, t: nat, i: int) -> int {
    if bitv(i, (n - c) as nat) == 1 { flipb(i, (n - t) as nat) } else { i }
}

/// The image of basis index `i` under SWAP of qubits `q1`, `q2`
/// (1-indexed): exchange the two bits.
pub open spec fn swap_tgt(n: nat, q1: nat, q2: nat, i: int) -> int {
    let p1 = pow2((n - q1) as nat) as int;
    let p2 = pow2((n - q2) as nat) as int;
    let b1 = bitv(i, (n - q1) as nat);
    let b2 = bitv(i, (n - q2) as nat);
    i - b1 * p1 - b2 * p2 + b2 * p1 + b1 * p2
}

/// Mathematical model of a built operator: a dim x dim matrix of exact
/// complex entries, all divided by sqrt(2)^scale.
pub struct UniV {
    pub dim: nat,
    pub scale: nat,
    pub rows: Seq<Seq<CxV>>,
}

/// All entries of `row` outside columns `j1` and `j2` are zero.
pub open spec fn support2(row: Seq<CxV>, dim: nat, j1: int, j2: int) -> bool {
    forall|k: int| 0 <= k < dim && k != j1 && k != j2 ==> (#[trigger] row[k]) == cxv_zero()
}

/// Every row of a gate matrix has at most two nonzero entries.
pub open spec fn row_sparse2(row: Seq<CxV>, dim: nat) -> bool {
    exists|j1: int, j2: int| 0 <= j1 < dim && 0 <= j2 < dim && #[trigger] support2(row, dim, j1, j2)
}

pub open spec fn uni_wf(u: UniV) -> bool {
    &&& 1 <= u.dim
    &&& u.scale <= 1
    &&& u.rows.len() == u.dim
    &&& forall|i: int| 0 <= i < u.dim ==> (#[trigger] u.rows[i]).len() == u.dim
    &&& forall|i: int, j: int| 0 <= i < u.dim && 0 <= j < u.dim ==> cx_abs_le(#[trigger] u.rows[i][j], 1)
    &&& forall|i: int| 0 <= i < u.dim ==> row_sparse2(#[trigger] u.rows[i], u.dim)
}

/// The full matrix of a one-qubit gate on qubit `q` (1-indexed, qubit 1 is
/// the most significant bit) in an `n`-qubit register.
pub open spec fn single_mat(g: Gen, n: nat, q: nat) -> UniV {
    UniV {
        dim: pow2(n),
        scale: g.scale,
        rows: Seq::new(pow2(n), |i: int| Seq::new(pow2(n), |j: int| single_entry(g, (n - q) as nat, i, j))),
    }
}

/// The permutation matrix of CNOT: row `i` has its single 1 in column
/// `cnot_tgt(i)`.
pub open spec fn cnot_mat(n: nat, c: nat, t: nat) -> UniV {
    UniV {
        dim: pow2(n),
        scale: 0,
        rows: Seq::new(pow2(n), |i: int| Seq::new(pow2(n), |j: int|
            if j == cnot_tgt(n, c, t, i) { cxv_one() } else { cxv_zero() })),
    }
}

/// The permutation matrix of SWAP: row `i` has its single 1 in column
/// `swap_tgt(i)`.
pub open spec fn swap_mat(n: nat, q1: nat, q2: nat) -> UniV {
    UniV {
        dim: pow2(n),
        scale: 0,
        rows: Seq::new(pow2(n), |i: int| Seq::new(pow2(n), |j: int|
            if j == swap_tgt(n, q1, q2, i) { cxv_one() } else { cxv_zero() })),
    }
}

/// A built operator for one gate application: a full 2^n x 2^n matrix of
/// exact complex entries over a common power-of-sqrt(2) denominator.
pub struct Unitary {
    dim: usize,
    scale: usize,
    rows: Vec<Vec<Cx>>,
}

impl View for Unitary {
    type V = UniV;

    closed spec fn view(&self) -> UniV {
        UniV {
            dim: self.dim as nat,
            scale: self.scale as nat,
            rows: self.rows@.map_values(|r: Vec<Cx>| r@.map_values(|c: Cx| c@)),
        }
    }
}

impl Unitary {
    /// Stored lengths, stated over the fields so that indexing verifies.
    pub closed spec fn len_inv(&self) -> bool {
        &&& self.rows@.len() == self.dim
        &&& forall|i: int| 0 <= i < self.rows@.len() ==> (#[trigger] self.rows@[i])@.len() == self.dim
    }

    pub open spec fn wf(&self) -> bool {
        &&& uni_wf(self@)
        &&& self.len_inv()
        &&& self@.dim <= 0x10000
    }

    pub fn get_dim(&self) -> (r: usize)
        ensures r == self@.dim,
    {
        self.dim
    }

    pub fn get_scale(&self) -> (r: usize)
        ensures r == self@.scale,
    {
        self.scale
    }

    /// The built operator, for inspection.
    pub fn matrix(&self) -> (r: &Vec<Vec<Cx>>)
        ensures r@.map_values(|v: Vec<Cx>| v@.map_values(|c: Cx| c@)) == self@.rows,
    {
        &self.rows
    }

    pub(crate) fn entry(&self, i: usize, j: usize) -> (r: Cx)
        requires self.wf(), i < self@.dim, j < self@.dim,
        ensures r@ == self@.rows[i as int][j as int],
    {
        self.rows[i][j]
    }

    /// Shared builder for the Kronecker embedding of a one-qubit generator.
    fn build_single(n: usize, q: usize, g00: Cx, g01: Cx, g10: Cx, g11: Cx, scale: usize) -> (u: Unitary)
        requires
            1 <= q <= n, n <= 8, scale <= 1,
            cx_abs_le(g00@, 1), cx_abs_le(g01@, 1), cx_abs_le(g10@, 1), cx_abs_le(g11@, 1),
        ensures
            u@ == single_mat(Gen { g00: g00@, g01: g01@, g10: g10@, g11: g11@, scale: scale as nat }, n as nat, q as nat),
            u.wf(),
    {
        let ghost g = Gen { g00: g00@, g01: g01@, g10: g10@, g11: g11@, scale: scale as nat };
        let ghost target = single_mat(g, n as nat, q as nat);
        let p = n - q;
        let pp = pow2_exec(p);
        let twop = 2 * pp;
        let d = pow2_exec(n);
        proof {
            vstd::arithmetic::power2::lemma_pow2_pos(p as nat);
            vstd::arithmetic::power2::lemma_pow2_pos(n as nat);
        }
        let mut rows: Vec<Vec<Cx>> = Vec::new();
        let mut i: usize = 0;
        while i < d
            invariant
                1 <= q <= n, n <= 8, p == n - q, scale <= 1,
                pp == pow2(p as nat), 1 <= pp, pp <= 0x10000, twop == 2 * pp, d == pow2(n as nat), d <= 0x10000,
                g == (Gen { g00: g00@, g01: g01@, g10: g10@, g11: g11@, scale: scale as nat }),
                target == single_mat(g, n as nat, q as nat),
                cx_abs_le(g00@, 1), cx_abs_le(g01@, 1), cx_abs_le(g10@, 1), cx_abs_le(g11@, 1),
                i <= d,
                rows@.len() == i,
                forall|ii: int| 0 <= ii < i ==> (#[trigger] rows@[ii])@.map_values(|c: Cx| c@) == target.rows[ii],
                forall|ii: int| 0 <= ii < i ==> (#[trigger] rows@[ii])@.len() == d,
            decreases d - i,
        {
            let bi = (i / pp) % 2;
            let mut row: Vec<Cx> = Vec::new();
            let mut j: usize = 0;
            while j < d
                invariant
                    1 <= q <= n, n <= 8, p == n - q, scale <= 1,
                    pp == pow2(p as nat), 1 <= pp, pp <= 0x10000, twop == 2 * pp, d == pow2(n as nat), d <= 0x10000,
                    g == (Gen { g00: g00@, g01: g01@, g10: g10@, g11: g11@, scale: scale as nat }),
                    cx_abs_le(g00@, 1), cx_abs_le(g01@, 1), cx_abs_le(g10@, 1), cx_abs_le(g11@, 1),
                    i < d,
                    bi == bitv(i as int, p as nat),
                    j <= d,
                    row@.len() == j,
                    forall|jj: int| 0 <= jj < j ==> (#[trigger] row@[jj])@ == single_entry(g, p as nat, i as int, jj),
                decreases d - j,
            {
                let bj = (j / pp) % 2;
                let same = i + (if bj == 1 { pp } else { 0 }) == j + (if bi == 1 { pp } else { 0 });
                let e = if same {
                    if bi == 0 && bj == 0 { g00 }
                    else if bi == 0 { g01 }
                    else if bj == 0 { g10 }
                    else { g11 }
                } else {
                    Cx::zero()
                };
                proof {
                    assert(bj == bitv(j as int, p as nat));
                    assert(bitv(i as int, p as nat) == 0 || bitv(i as int, p as nat) == 1);
                    assert(bitv(j as int, p as nat) == 0 || bitv(j as int, p as nat) == 1);
                    assert(agree_off(i as int, j as int, p as nat) == same);
                }
                row.push(e);
                j += 1;
            }
            proof {
                assert(row@.map_values(|c: Cx| c@) =~= target.rows[i as int]);
            }
            rows.push(row);
            i += 1;
        }
        let u = Unitary { dim: d, scale, rows };
        proof {
            assert(u@.rows =~= target.rows);
            assert(u@ =~= target);
            assert(uni_wf(u@)) by {
                assert forall|ii: int| 0 <= ii < u@.dim implies row_sparse2(#[trigger] u@.rows[ii], u@.dim) by {
                    lemma_bit_decomp(ii, p as nat, n as nat);
                    let j1 = clearb(ii, p as nat);
                    let j2 = clearb(ii, p as nat) + pow2(p as nat);
                    assert forall|k: int| 0 <= k < u@.dim && k != j1 && k != j2 implies (#[trigger] u@.rows[ii][k]) == cxv_zero() by {
                        if agree_off(ii, k, p as nat) {
                            lemma_agree_off_cases(ii, k, p as nat, n as nat);
                            lemma_bit_decomp(k, p as nat, n as nat);
                        }
                    }
                    assert(0 <= j1 < u@.dim && 0 <= j2 < u@.dim);
                    assert(support2(u@.rows[ii], u@.dim, j1, j2));
                }
            }
        }
        u
    }

    /// The identity operator on an `n`-qubit register; the designated qubit
    /// makes no difference.
    pub fn identity(n: usize, q: usize) -> (u: Unitary)
        requires 1 <= q <= n, n <= 8,
        ensures u@ == single_mat(gen_identity(), n as nat, q as nat), u.wf(),
    {
        Self::build_single(n, q, Cx::one(), Cx::zero(), Cx::zero(), Cx::one(), 0)
    }

    /// Hadamard on qubit `q` of `n` (1-indexed; qubit 1 is the most
    /// significant bit of the basis index).
    pub fn hadamard(n: usize, q: usize) -> (u: Unitary)
        requires 1 <= q <= n, n <= 8,
        ensures u@ == single_mat(gen_hadamard(), n as nat, q as nat), u.wf(),
    {
        Self::build_single(n, q, Cx::one(), Cx::one(), Cx::one(), Cx::new(-1, 0, 0, 0), 1)
    }

    pub fn pauli_x(n: usize, q: usize) -> (u: Unitary)
        requires 1 <= q <= n, n <= 8,
        ensures u@ == single_mat(gen_pauli_x(), n as nat, q as nat), u.wf(),
    {
        Self::build_single(n, q, Cx::zero(), Cx::one(), Cx::one(), Cx::zero(), 0)
    }

    pub fn pauli_y(n: usize, q: usize) -> (u: Unitary)
        requires 1 <= q <= n, n <= 8,
        ensures u@ == single_mat(gen_pauli_y(), n as nat, q as nat), u.wf(),
    {
        Self::build_single(n, q, Cx::zero(), Cx::new(0, 0, -1, 0), Cx::new(0, 0, 1, 0), Cx::zero(), 0)
    }

    pub fn pauli_z(n: usize, q: usize) -> (u: Unitary)
        requires 1 <= q <= n, n <= 8,
        ensures u@ == single_mat(gen_pauli_z(), n as nat, q as nat), u.wf(),
    {
        Self::build_single(n, q, Cx::one(), Cx::zero(), Cx::zero(), Cx::new(-1, 0, 0, 0), 0)
    }

    /// The phase gate S on qubit `q`.
    pub fn phase_s(n: usize, q: usize) -> (u: Unitary)
        requires 1 <= q <= n, n <= 8,
        ensures u@ == single_mat(gen_phase_s(), n as nat, q as nat), u.wf(),
    {
        Self::build_single(n, q, Cx::one(), Cx::zero(), Cx::zero(), Cx::new(0, 0, 1, 0), 0)
    }

    /// The T gate on qubit `q`.
    pub fn t_gate(n: usize, q: usize) -> (u: Unitary)
        requires 1 <= q <= n, n <= 8,
        ensures u@ == single_mat(gen_t(), n as nat, q as nat), u.wf(),
    {
        Self::build_single(n, q, Cx::new(0, 1, 0, 0), Cx::zero(), Cx::zero(), Cx::new(1, 0, 1, 0), 1)
    }

    /// CNOT with control qubit `c` and target qubit `t` (1-indexed, in any
    /// order, adjacent or not): the permutation that flips the target bit
    /// of every basis index whose control bit is set.
    pub fn cnot(n: usize, c: usize, t: usize) -> (u: Unitary)
        requires 1 <= c <= n, 1 <= t <= n, c != t, n <= 8,
        ensures u@ == cnot_mat(n as nat, c as nat, t as nat), u.wf(),
    {
        let ghost target = cnot_mat(n as nat, c as nat, t as nat);
        let pc = n - c;
        let pt = n - t;
        let ppc = pow2_exec(pc);
        let ppt = pow2_exec(pt);
        let d = pow2_exec(n);
        proof { vstd::arithmetic::power2::lemma_pow2_pos(n as nat); }
        let mut rows: Vec<Vec<Cx>> = Vec::new();
        let mut i: usize = 0;
        while i < d
            invariant
                1 <= c <= n, 1 <= t <= n, c != t, n <= 8,
                pc == n - c, pt == n - t,
                ppc == pow2(pc as nat), 1 <= ppc, ppt == pow2(pt as nat), 1 <= ppt, d == pow2(n as nat), d <= 0x10000,
                target == cnot_mat(n as nat, c as nat, t as nat),
                i <= d,
                rows@.len() == i,
                forall|ii: int| 0 <= ii < i ==> (#[trigger] rows@[ii])@.map_values(|cc: Cx| cc@) == target.rows[ii],
                forall|ii: int| 0 <= ii < i ==> (#[trigger] rows@[ii])@.len() == d,
            decreases d - i,
        {
            proof { lemma_bit_decomp(i as int, pt as nat, n as nat); }
            let bc = (i / ppc) % 2;
            let tgt: usize = if bc == 1 {
                let bt = (i / ppt) % 2;
                if bt == 1 { i - ppt } else { i + ppt }
            } else {
                i
            };
            proof {
                assert(tgt == cnot_tgt(n as nat, c as nat, t as nat, i as int));
                assert(tgt < d);
            }
            let mut row: Vec<Cx> = Vec::new();
            let mut j: usize = 0;
            while j < d
                invariant
                    i < d, d <= 0x10000, tgt < d,
                    tgt == cnot_tgt(n as nat, c as nat, t as nat, i as int),
                    j <= d,
                    row@.len() == j,
                    forall|jj: int| 0 <= jj < j ==> (#[trigger] row@[jj])@
                        == (if jj == cnot_tgt(n as nat, c as nat, t as nat, i as int) { cxv_one() } else { cxv_zero() }),
                decreases d - j,
            {
                if j == tgt {
                    row.push(Cx::one());
                } else {
                    row.push(Cx::zero());
                }
                j += 1;
            }
            proof {
                assert(row@.map_values(|cc: Cx| cc@) =~= target.rows[i as int]);
            }
            rows.push(row);
            i += 1;
        }
        let u = Unitary { dim: d, scale: 0, rows };
        proof {
            assert(u@.rows =~= target.rows);
            assert(u@ =~= target);
            assert(uni_wf(u@)) by {
                assert forall|ii: int| 0 <= ii < u@.dim implies row_sparse2(#[trigger] u@.rows[ii], u@.dim) by {
                    lemma_bit_decomp(ii, (n - t) as nat, n as nat);
                    let j1 = cnot_tgt(n as nat, c as nat, t as nat, ii);
                    assert(0 <= j1 < u@.dim);
                    assert(support2(u@.rows[ii], u@.dim, j1, j1));
                }
            }
        }
        u
    }

    /// SWAP of qubits `q1` and `q2` (1-indexed, in any order, adjacent or
    /// not): the permutation that exchanges the two bits of every basis
    /// index.
    pub fn swap(n: usize, q1: usize, q2: usize) -> (u: Unitary)
        requires 1 <= q1 <= n, 1 <= q2 <= n, q1 != q2, n <= 8,
        ensures u@ == swap_mat(n as nat, q1 as nat, q2 as nat), u.wf(),
    {
        let ghost target = swap_mat(n as nat, q1 as nat, q2 as nat);
        let p1 = n - q1;
        let p2 = n - q2;
        let pp1 = pow2_exec(p1);
        let pp2 = pow2_exec(p2);
        let d = pow2_exec(n);
        proof { vstd::arithmetic::power2::lemma_pow2_pos(n as nat); }
        let mut rows: Vec<Vec<Cx>> = Vec::new();
        let mut i: usize = 0;
        while i < d
            invariant
                1 <= q1 <= n, 1 <= q2 <= n, q1 != q2, n <= 8,
                p1 == n - q1, p2 == n - q2,
                pp1 == pow2(p1 as nat), 1 <= pp1, pp2 == pow2(p2 as nat), 1 <= pp2, d == pow2(n as nat), d <= 0x10000,
                target == swap_mat(n as nat, q1 as nat, q2 as nat),
                i <= d,
                rows@.len() == i,
                forall|ii: int| 0 <= ii < i ==> (#[trigger] rows@[ii])@.map_values(|cc: Cx| cc@) == target.rows[ii],
                forall|ii: int| 0 <= ii < i ==> (#[trigger] rows@[ii])@.len() == d,
            decreases d - i,
        {
            proof {
                lemma_bit_decomp(i as int, p1 as nat, n as nat);
                lemma_bit_decomp(i as int, p2 as nat, n as nat);
            }
            let b1 = (i / pp1) % 2;
            let b2 = (i / pp2) % 2;
            let tgt: usize = if b1 == b2 {
                i
            } else if b1 == 1 {
                i - pp1 + pp2
            } else {
                i + pp1 - pp2
            };
            proof {
                assert(tgt == swap_tgt(n as nat, q1 as nat, q2 as nat, i as int));
                assert(tgt < d);
            }
            let mut row: Vec<Cx> = Vec::new();
            let mut j: usize = 0;
            while j < d
                invariant
                    i < d, d <= 0x10000, tgt < d,
                    tgt == swap_tgt(n as nat, q1 as nat, q2 as nat, i as int),
                    j <= d,
                    row@.len() == j,
                    forall|jj: int| 0 <= jj < j ==> (#[trigger] row@[jj])@
                        == (if jj == swap_tgt(n as nat, q1 as nat, q2 as nat, i as int) { cxv_one() } else { cxv_zero() }),
                decreases d - j,
            {
                if j == tgt {
                    row.push(Cx::one());
                } else {
                    row.push(Cx::zero());
                }
                j += 1;
            }
            proof {
                assert(row@.map_values(|cc: Cx| cc@) =~= target.rows[i as int]);
            }
            rows.push(row);
            i += 1;
        }
        let u = Unitary { dim: d, scale: 0, rows };
        proof {
            assert(u@.rows =~= target.rows);
            assert(u@ =~= target);
            assert(uni_wf(u@)) by {
                assert forall|ii: int| 0 <= ii < u@.dim implies row_sparse2(#[trigger] u@.rows[ii], u@.dim) by {
                    lemma_bit_decomp(ii, (n - q1) as nat, n as nat);
                    lemma_bit_decomp(ii, (n - q2) as nat, n as nat);
                    let j1 = swap_tgt(n as nat, q1 as nat, q2 as nat, ii);
                    assert(0 <= j1 < u@.dim);
                    assert(support2(u@.rows[ii], u@.dim, j1, j1));
                }
            }
        }
        u
    }
}


/// Mathematical model of a pure quantum state: exact amplitude numerators
/// over the common denominator sqrt(2)^scale.
pub struct StateV {
    pub amps: Seq<CxV>,
    pub scale: nat,
}

/// Every amplitude's components lie in `[-b, b]`.
pub open spec fn all_bounded(s: Seq<CxV>, b: int) -> bool {
    forall|i: int| 0 <= i < s.len() ==> cx_abs_le(#[trigger] s[i], b)
}

/// A bound on all amplitudes weakens to any larger bound.
pub proof fn lemma_all_bounded_mono(s: Seq<CxV>, b1: int, b2: int)
    requires all_bounded(s, b1), b1 <= b2,
    ensures all_bounded(s, b2),
{
    assert forall|i: int| 0 <= i < s.len() implies cx_abs_le(#[trigger] s[i], b2) by {
        assert(cx_abs_le(s[i], b1));
    }
}

/// The dot product of the first `m` entries of a matrix row with the state.
pub open spec fn dotv(row: Seq<CxV>, s: Seq<CxV>, m: nat) -> CxV
    decreases m,
{
    if m == 0 {
        cxv_zero()
    } else {
        cxv_add(dotv(row, s, (m - 1) as nat), cxv_mul(row[m - 1], s[m - 1]))
    }
}

/// The matrix-vector product: amplitude `i` becomes row `i` dot the state.
pub open spec fn apply_amps(rows: Seq<Seq<CxV>>, s: Seq<CxV>) -> Seq<CxV> {
    Seq::new(s.len(), |i: int| dotv(rows[i], s, s.len()))
}

/// Prefix dot products of a two-column row stay within 12 times the
/// amplitude bound; outside the support they are exactly zero.
proof fn lemma_dotv_bound(row: Seq<CxV>, s: Seq<CxV>, m: nat, dim: nat, j1: int, j2: int, b: int)
    requires
        m <= dim, dim == s.len(), dim <= row.len(),
        support2(row, dim, j1, j2),
        forall|k: int| 0 <= k < dim ==> cx_abs_le(#[trigger] row[k], 1),
        forall|k: int| 0 <= k < dim ==> cx_abs_le(#[trigger] s[k], b),
        b >= 0,
    ensures
        cx_abs_le(dotv(row, s, m), 12 * b),
        (j1 >= m && j2 >= m) ==> dotv(row, s, m) == cxv_zero(),
        (j1 >= m || j2 >= m || j1 == j2) ==> cx_abs_le(dotv(row, s, m), 6 * b),
    decreases m,
{
    if m > 0 {
        lemma_dotv_bound(row, s, (m - 1) as nat, dim, j1, j2, b);
        let e = row[m - 1];
        let a = s[m - 1];
        if m - 1 == j1 || m - 1 == j2 {
            lemma_mul_small_bound(e, a, b);
        } else {
            assert(e == cxv_zero());
            lemma_mul_zero(a);
        }
    }
}

/// Applying a well-formed gate matrix multiplies the amplitude bound by at
/// most 12 (each row meets at most two amplitudes through entries whose
/// components are at most 1).
pub proof fn lemma_apply_amps_bounded(u: UniV, s: Seq<CxV>, b: int)
    requires uni_wf(u), s.len() == u.dim, all_bounded(s, b), b >= 0,
    ensures
        apply_amps(u.rows, s).len() == s.len(),
        all_bounded(apply_amps(u.rows, s), 12 * b),
{
    assert forall|i: int| 0 <= i < s.len() implies cx_abs_le(#[trigger] apply_amps(u.rows, s)[i], 12 * b) by {
        assert(row_sparse2(u.rows[i], u.dim));
        let (j1, j2) = choose|j1: int, j2: int| 0 <= j1 < u.dim && 0 <= j2 < u.dim && #[trigger] support2(u.rows[i], u.dim, j1, j2);
        lemma_dotv_bound(u.rows[i], s, u.dim, u.dim, j1, j2, b);
    }
}

/// The pure-state engine: owns the exact amplitude vector and applies a
/// built unitary in place.
#[derive(Debug)]
pub struct PureState {
    amps: Vec<Cx>,
    scale: usize,
}

impl View for PureState {
    type V = StateV;

    closed spec fn view(&self) -> StateV {
        StateV { amps: self.amps@.map_values(|c: Cx| c@), scale: self.scale as nat }
    }
}

impl PureState {
    /// Stored length, stated over the field so that indexing verifies.
    pub closed spec fn len_inv(&self) -> bool {
        self.amps@.len() == self@.amps.len()
    }

    /// The single-qubit basis state |0>.
    pub fn qubit0() -> (s: Self)
        ensures s@.amps == seq![cxv_one(), cxv_zero()], s@.scale == 0,
    {
        let mut amps: Vec<Cx> = Vec::new();
        amps.push(Cx::one());
        amps.push(Cx::zero());
        let s = PureState { amps, scale: 0 };
        proof { assert(s@.amps =~= seq![cxv_one(), cxv_zero()]); }
        s
    }

    /// The single-qubit basis state |1>.
    pub fn qubit1() -> (s: Self)
        ensures s@.amps == seq![cxv_zero(), cxv_one()], s@.scale == 0,
    {
        let mut amps: Vec<Cx> = Vec::new();
        amps.push(Cx::zero());
        amps.push(Cx::one());
        let s = PureState { amps, scale: 0 };
        proof { assert(s@.amps =~= seq![cxv_zero(), cxv_one()]); }
        s
    }

    /// An empty register (zero qubits): no amplitudes.
    pub fn empty() -> (s: Self)
        ensures s@.amps == Seq::<CxV>::empty(), s@.scale == 0,
    {
        let s = PureState { amps: Vec::new(), scale: 0 };
        proof { assert(s@.amps =~= Seq::<CxV>::empty()); }
        s
    }

    pub fn dim(&self) -> (r: usize)
        ensures r == self@.amps.len(),
    {
        self.amps.len()
    }

    pub fn get_scale(&self) -> (r: usize)
        ensures r == self@.scale,
    {
        self.scale
    }

    /// Read-only view of the amplitude numerators; together with the scale
    /// they determine every probability exactly.
    pub fn get_amplitudes(&self) -> (r: &Vec<Cx>)
        ensures r@.map_values(|c: Cx| c@) == self@.amps,
    {
        &self.amps
    }

    /// The tensor product: `self`'s qubits precede `o`'s qubits, so
    /// amplitude `i` of the product is `self[i / dim(o)] * o[i % dim(o)]`.
    pub fn product(&self, o: &PureState) -> (r: Self)
        requires
            all_bounded(self@.amps, tensor_bound()),
            all_bounded(o@.amps, tensor_bound()),
            1 <= o@.amps.len(),
            self@.amps.len() * o@.amps.len() <= 0x10000,
            self@.scale + o@.scale <= 0x10000,
        ensures
            r@.scale == self@.scale + o@.scale,
            r@.amps.len() == self@.amps.len() * o@.amps.len(),
            forall|i: int| 0 <= i < r@.amps.len() ==>
                #[trigger] r@.amps[i] == cxv_mul(self@.amps[i / (o@.amps.len() as int)], o@.amps[i % (o@.amps.len() as int)]),
    {
        let la = self.amps.len();
        let lo = o.amps.len();
        let mut amps: Vec<Cx> = Vec::new();
        let mut i: usize = 0;
        while i < la
            invariant
                la == self@.amps.len(), lo == o@.amps.len(),
                self.len_inv(), o.len_inv(),
                all_bounded(self@.amps, tensor_bound()), all_bounded(o@.amps, tensor_bound()),
                1 <= lo, la * lo <= 0x10000,
                i <= la,
                amps@.len() == i * lo,
                forall|k: int| 0 <= k < amps@.len() ==>
                    (#[trigger] amps@[k])@ == cxv_mul(self@.amps[k / (lo as int)], o@.amps[k % (lo as int)]),
            decreases la - i,
        {
            let mut j: usize = 0;
            proof {
                assert(i * lo + lo <= la * lo) by (nonlinear_arith) requires i < la, lo >= 1;
            }
            while j < lo
                invariant
                    la == self@.amps.len(), lo == o@.amps.len(),
                    self.len_inv(), o.len_inv(),
                    all_bounded(self@.amps, tensor_bound()), all_bounded(o@.amps, tensor_bound()),
                    1 <= lo, la * lo <= 0x10000, i < la, i * lo + lo <= la * lo,
                    j <= lo,
                    amps@.len() == i * lo + j,
                    forall|k: int| 0 <= k < amps@.len() ==>
                        (#[trigger] amps@[k])@ == cxv_mul(self@.amps[k / (lo as int)], o@.amps[k % (lo as int)]),
                decreases lo - j,
            {
                proof {
                    assert(cx_abs_le(self@.amps[i as int], tensor_bound()));
                    assert(cx_abs_le(o@.amps[j as int], tensor_bound()));
                }
                let v = self.amps[i].mul_wide(&o.amps[j]);
                proof {
                    vstd::arithmetic::div_mod::lemma_fundamental_div_mod_converse((i * lo + j) as int, lo as int, i as int, j as int);
                }
                amps.push(v);
                j += 1;
            }
            proof {
                assert((i + 1) * lo == i * lo + lo) by (nonlinear_arith);
            }
            i += 1;
        }
        let r = PureState { amps, scale: self.scale + o.scale };
        proof {
            assert(r@.amps.len() == la * lo);
        }
        r
    }

    /// In-place application of a built unitary: fails with
    /// `DimensionMismatch` exactly when the operator's dimension differs
    /// from the state's, and otherwise replaces every amplitude with the
    /// matrix-vector product and adds the operator's scale.
    pub fn apply(&mut self, u: Unitary) -> (res: Result<(), QError>)
        requires
            u.wf(),
            all_bounded(old(self)@.amps, amp_bound()),
            old(self)@.scale + u@.scale <= 0x10000,
        ensures
            res matches Ok(()) ==> u@.dim == old(self)@.amps.len()
                && final(self)@.amps == apply_amps(u@.rows, old(self)@.amps)
                && final(self)@.scale == old(self)@.scale + u@.scale,
            res matches Err(e) ==> e == QError::DimensionMismatch
                && u@.dim != old(self)@.amps.len()
                && final(self)@ == old(self)@,
    {
        let d = self.amps.len();
        if u.get_dim() != d {
            return Err(QError::DimensionMismatch);
        }
        let ghost s0 = self@.amps;
        let mut amps: Vec<Cx> = Vec::new();
        let mut i: usize = 0;
        while i < d
            invariant
                u.wf(), u@.dim == d,
                s0 == self@.amps, self.len_inv(), d == self@.amps.len(),
                all_bounded(s0, amp_bound()),
                i <= d,
                amps@.len() == i,
                forall|ii: int| 0 <= ii < i ==> (#[trigger] amps@[ii])@ == dotv(u@.rows[ii], s0, d as nat),
            decreases d - i,
        {
            proof {
                assert(row_sparse2(u@.rows[i as int], u@.dim));
            }
            let ghost (j1, j2) = choose|j1: int, j2: int| 0 <= j1 < u@.dim && 0 <= j2 < u@.dim && #[trigger] support2(u@.rows[i as int], u@.dim, j1, j2);
            let mut acc = Cx::zero();
            let mut j: usize = 0;
            while j < d
                invariant
                    u.wf(), u@.dim == d,
                    s0 == self@.amps, self.len_inv(), d == self@.amps.len(),
                    all_bounded(s0, amp_bound()),
                    i < d,
                    support2(u@.rows[i as int], u@.dim, j1, j2),
                    j <= d,
                    acc@ == dotv(u@.rows[i as int], s0, j as nat),
                decreases d - j,
            {
                proof {
                    lemma_dotv_bound(u@.rows[i as int], s0, j as nat, d as nat, j1, j2, amp_bound());
                }
                let e = u.entry(i, j);
                proof {
                    assert(cx_abs_le(u@.rows[i as int][j as int], 1));
                    assert(cx_abs_le(s0[j as int], amp_bound()));
                }
                if !e.is_zero() {
                    proof {
                        lemma_mul_small_bound(u@.rows[i as int][j as int], s0[j as int], amp_bound());
                    }
                    let term = e.mul(&self.amps[j]);
                    acc = acc.add(&term);
                } else {
                    proof {
                        lemma_mul_zero(s0[j as int]);
                    }
                }
                j += 1;
            }
            amps.push(acc);
            i += 1;
        }
        self.amps = amps;
        self.scale = self.scale + u.get_scale();
        proof {
            assert(self@.amps =~= apply_amps(u@.rows, s0));
        }
        Ok(())
    }
}

} // verus!
