use vstd::prelude::*;
use crate::QError;

verus! {

/// A single-qubit Pauli operator: identity or one of the three Pauli errors.
#[derive(Clone, Copy, PartialEq, Eq, Structural, Debug)]
pub enum PauliError {
    I,
    X,
    Y,
    Z,
}

/// A Clifford gate understood by the tableau engine.
#[allow(non_camel_case_types)]
#[derive(Clone, Copy, PartialEq, Eq, Structural, Debug)]
pub enum CliffordOperation {
    HADAMARD,
    PAULI_X,
    PAULI_Y,
    PAULI_Z,
    CNOT,
    SWAP,
}

/// The preset stabilizer codes with a built-in syndrome decoder.
#[derive(Clone, Copy, PartialEq, Eq, Structural, Debug)]
pub enum CodeKind {
    BitFlip,
    PhaseFlip,
    Steane,
}

/// Mathematical model of a stabilizer tableau: binary matrices `x` and `z` of
/// shape (2n x n) over GF(2) and a phase vector `r` of length 2n.  Rows
/// `0..n-1` are destabilizer generators, rows `n..2n-1` are stabilizer
/// generators (Aaronson-Gottesman convention).  `code` records which preset
/// code built the tableau, if any; only such tableaus have a decoder.
pub struct TabV {
    pub n: nat,
    pub code: Option<CodeKind>,
    pub x: Seq<Seq<bool>>,
    pub z: Seq<Seq<bool>>,
    pub r: Seq<bool>,
}

/// Shape well-formedness of a tableau model.  Preset codes fix the qubit count
/// the decoder expects.
pub open spec fn tab_wf(t: TabV) -> bool {
    &&& t.n >= 1
    &&& t.x.len() == 2 * t.n
    &&& t.z.len() == 2 * t.n
    &&& t.r.len() == 2 * t.n
    &&& forall|i: int| 0 <= i < 2 * t.n ==> (#[trigger] t.x[i]).len() == t.n
    &&& forall|i: int| 0 <= i < 2 * t.n ==> (#[trigger] t.z[i]).len() == t.n
    &&& (t.code == Some(CodeKind::BitFlip) ==> t.n == 3)
    &&& (t.code == Some(CodeKind::PhaseFlip) ==> t.n == 3)
    &&& (t.code == Some(CodeKind::Steane) ==> t.n == 7)
}

/// The fresh tableau on `n` qubits: destabilizer `i` is the bare Pauli `X` on
/// qubit `i+1`, stabilizer `i` is the bare Pauli `Z` on qubit `i+1`, phases 0.
pub open spec fn identity_tab(n: nat) -> TabV {
    TabV {
        n: n,
        code: None,
        x: Seq::new(2 * n, |i: int| Seq::new(n, |j: int| i == j)),
        z: Seq::new(2 * n, |i: int| Seq::new(n, |j: int| i == j + n)),
        r: Seq::new(2 * n, |i: int| false),
    }
}

/// Hadamard on column `c`: swap the X and Z bits in column `c` of every row
/// and flip the row's phase when both bits were set (HXH = Z, HZH = X,
/// HYH = -Y).
pub open spec fn hadamard_spec(t: TabV, c: int) -> TabV {
    TabV {
        n: t.n,
        code: t.code,
        x: Seq::new(t.x.len(), |i: int| Seq::new(t.n, |j: int| if j == c { t.z[i][j] } else { t.x[i][j] })),
        z: Seq::new(t.z.len(), |i: int| Seq::new(t.n, |j: int| if j == c { t.x[i][j] } else { t.z[i][j] })),
        r: Seq::new(t.r.len(), |i: int| t.r[i] != (t.x[i][c] && t.z[i][c])),
    }
}

/// Whether conjugating by the Pauli `p` flips the sign of a generator whose
/// column holds the bit pair (`xbit`, `zbit`): exactly when the two
/// single-qubit Paulis anticommute.
pub open spec fn pauli_flip(p: PauliError, xbit: bool, zbit: bool) -> bool {
    match p {
        PauliError::I => false,
        PauliError::X => zbit,
        PauliError::Z => xbit,
        PauliError::Y => xbit != zbit,
    }
}

/// A Pauli applied to column `c` is a phase-only update: the phase of each row
/// flips exactly when the row's bit pair at `c` anticommutes with the Pauli.
pub open spec fn error_spec(t: TabV, p: PauliError, c: int) -> TabV {
    TabV {
        n: t.n,
        code: t.code,
        x: t.x,
        z: t.z,
        r: Seq::new(t.r.len(), |i: int| t.r[i] != pauli_flip(p, t.x[i][c], t.z[i][c])),
    }
}

/// CNOT with control column `a` and target column `b`: in every row the
/// target X bit absorbs the control X bit, the control Z bit absorbs the
/// target Z bit, and the phase flips on the standard parity condition.
pub open spec fn cnot_spec(t: TabV, a: int, b: int) -> TabV {
    TabV {
        n: t.n,
        code: t.code,
        x: Seq::new(t.x.len(), |i: int| Seq::new(t.n, |j: int| if j == b { t.x[i][b] != t.x[i][a] } else { t.x[i][j] })),
        z: Seq::new(t.z.len(), |i: int| Seq::new(t.n, |j: int| if j == a { t.z[i][a] != t.z[i][b] } else { t.z[i][j] })),
        r: Seq::new(t.r.len(), |i: int| t.r[i] != (t.x[i][a] && t.z[i][b] && (t.x[i][b] == t.z[i][a]))),
    }
}

/// Whether the arguments of `apply_clifford` are valid for an `n`-qubit
/// tableau: qubit positions are 1-indexed, and the two-qubit gates need a
/// distinct second position.
pub open spec fn clifford_ok(n: nat, op: CliffordOperation, target: int, control: int) -> bool {
    match op {
        CliffordOperation::CNOT | CliffordOperation::SWAP =>
            1 <= target <= n && 1 <= control <= n && control != target,
        _ => 1 <= target <= n,
    }
}


/// The value of an optional operand; 0 marks an absent operand, which is
/// never a valid 1-indexed position.
pub open spec fn opt_val(c: Option<usize>) -> int {
    match c {
        Some(v) => v as int,
        None => 0,
    }
}

/// The tableau after one Clifford gate.  SWAP is not a primitive transform:
/// it is the three CNOTs (control,target), (target,control), (control,target).
pub open spec fn clifford_spec(t: TabV, op: CliffordOperation, target: int, control: int) -> TabV {
    match op {
        CliffordOperation::HADAMARD => hadamard_spec(t, target - 1),
        CliffordOperation::PAULI_X => error_spec(t, PauliError::X, target - 1),
        CliffordOperation::PAULI_Y => error_spec(t, PauliError::Y, target - 1),
        CliffordOperation::PAULI_Z => error_spec(t, PauliError::Z, target - 1),
        CliffordOperation::CNOT => cnot_spec(t, control - 1, target - 1),
        CliffordOperation::SWAP => cnot_spec(
            cnot_spec(cnot_spec(t, control - 1, target - 1), target - 1, control - 1),
            control - 1,
            target - 1,
        ),
    }
}

/// The syndrome: the phase bits of the stabilizer rows `n..2n-1`.
pub open spec fn syndrome_spec(t: TabV) -> Seq<bool> {
    Seq::new(t.n, |i: int| t.r[t.n + i])
}

pub open spec fn bool_to_int(b: bool) -> int {
    if b { 1 } else { 0 }
}

/// The decoder's recommendation, a fixed lookup keyed to the preset code's
/// parity checks.  Custom tableaus (`code == None`) have no decoder and get
/// `None`.  For the two three-qubit codes only the first two syndrome bits
/// (the code's two checks) are consulted; the third stabilizer row is the
/// logical operator completing the tableau.  For the Steane code the first
/// three bits locate a Z error and the next three an X error by binary
/// address; when both halves are nonzero and disagree on the qubit no single
/// Pauli explains the syndrome and the decoder reports `None`.
pub open spec fn decode_spec(t: TabV) -> Option<(PauliError, usize)> {
    match t.code {
        None => None,
        Some(CodeKind::BitFlip) => {
            let s0 = t.r[t.n as int];
            let s1 = t.r[t.n as int + 1];
            if s0 && !s1 { Some((PauliError::X, 1usize)) }
            else if s0 && s1 { Some((PauliError::X, 2usize)) }
            else if !s0 && s1 { Some((PauliError::X, 3usize)) }
            else { None }
        },
        Some(CodeKind::PhaseFlip) => {
            let s0 = t.r[t.n as int];
            let s1 = t.r[t.n as int + 1];
            if s0 && !s1 { Some((PauliError::Z, 1usize)) }
            else if s0 && s1 { Some((PauliError::Z, 2usize)) }
            else if !s0 && s1 { Some((PauliError::Z, 3usize)) }
            else { None }
        },
        Some(CodeKind::Steane) => {
            let qz = 4 * bool_to_int(t.r[t.n as int]) + 2 * bool_to_int(t.r[t.n as int + 1]) + bool_to_int(t.r[t.n as int + 2]);
            let qx = 4 * bool_to_int(t.r[t.n as int + 3]) + 2 * bool_to_int(t.r[t.n as int + 4]) + bool_to_int(t.r[t.n as int + 5]);
            if qx == 0 && qz == 0 { None }
            else if qz == 0 { Some((PauliError::X, qx as usize)) }
            else if qx == 0 { Some((PauliError::Z, qz as usize)) }
            else if qx == qz { Some((PauliError::Y, qx as usize)) }
            else { None }
        },
    }
}

/// One column's contribution to the symplectic product of rows `i` and `j`.
pub open spec fn sterm(xi: Seq<bool>, zi: Seq<bool>, xj: Seq<bool>, zj: Seq<bool>, k: int) -> bool {
    (xi[k] && zj[k]) != (zi[k] && xj[k])
}

/// The symplectic product over the first `m` columns: true means the two
/// Pauli rows anticommute.
pub open spec fn sprod(xi: Seq<bool>, zi: Seq<bool>, xj: Seq<bool>, zj: Seq<bool>, m: nat) -> bool
    decreases m,
{
    if m == 0 {
        false
    } else {
        sprod(xi, zi, xj, zj, (m - 1) as nat) != sterm(xi, zi, xj, zj, m - 1)
    }
}

/// The symplectic commutation invariant of a stabilizer tableau: destabilizer
/// `i` anticommutes with stabilizer `i` and with nothing else.
pub open spec fn tab_valid(t: TabV) -> bool {
    forall|i: int, j: int| 0 <= i < 2 * t.n && 0 <= j < 2 * t.n ==>
        #[trigger] sprod(t.x[i], t.z[i], t.x[j], t.z[j], t.n) == (i + t.n == j || j + t.n == i)
}


/// Which Paulis contribute an X bit / a Z bit in the binary representation.
pub open spec fn pauli_xbit(p: PauliError) -> bool {
    p == PauliError::X || p == PauliError::Y
}

pub open spec fn pauli_zbit(p: PauliError) -> bool {
    p == PauliError::Z || p == PauliError::Y
}

/// The three-qubit bit-flip code: stabilizers Z1Z2, Z2Z3 and the logical
/// operator Z1Z2Z3 completing the tableau, with matching destabilizers.
pub open spec fn bit_flip_tab() -> TabV {
    TabV {
        n: 3,
        code: Some(CodeKind::BitFlip),
        x: seq![
            seq![false, true, true],
            seq![true, true, false],
            seq![true, true, true],
            seq![false, false, false],
            seq![false, false, false],
            seq![false, false, false],
        ],
        z: seq![
            seq![false, false, false],
            seq![false, false, false],
            seq![false, false, false],
            seq![true, true, false],
            seq![false, true, true],
            seq![true, true, true],
        ],
        r: seq![false, false, false, false, false, false],
    }
}

/// The three-qubit phase-flip code: stabilizers X1X2, X2X3 and the logical
/// operator X1X2X3, the GF(2) mirror image of the bit-flip code.
pub open spec fn phase_flip_tab() -> TabV {
    TabV {
        n: 3,
        code: Some(CodeKind::PhaseFlip),
        x: seq![
            seq![false, false, false],
            seq![false, false, false],
            seq![false, false, false],
            seq![true, true, false],
            seq![false, true, true],
            seq![true, true, true],
        ],
        z: seq![
            seq![false, true, true],
            seq![true, true, false],
            seq![true, true, true],
            seq![false, false, false],
            seq![false, false, false],
            seq![false, false, false],
        ],
        r: seq![false, false, false, false, false, false],
    }
}

/// The Steane code: the three X-type and three Z-type Hamming checks plus the
/// logical Z1..Z7, with a completing set of destabilizers.
pub open spec fn steane_tab() -> TabV {
    TabV {
        n: 7,
        code: Some(CodeKind::Steane),
        x: seq![
            seq![false, false, false, false, false, false, false],
            seq![false, false, false, false, false, false, false],
            seq![false, false, false, false, false, false, false],
            seq![false, false, true, false, false, false, true],
            seq![false, false, false, false, true, false, true],
            seq![false, false, false, false, false, true, true],
            seq![false, false, true, false, true, true, false],
            seq![false, false, false, true, true, true, true],
            seq![false, true, true, false, false, true, true],
            seq![true, false, true, false, true, false, true],
            seq![false, false, false, false, false, false, false],
            seq![false, false, false, false, false, false, false],
            seq![false, false, false, false, false, false, false],
            seq![false, false, false, false, false, false, false],
        ],
        z: seq![
            seq![false, false, false, true, false, false, false],
            seq![false, true, false, false, false, false, false],
            seq![true, false, false, false, false, false, false],
            seq![false, false, false, false, false, false, false],
            seq![false, false, false, false, false, false, false],
            seq![false, false, false, false, false, false, false],
            seq![false, false, false, false, false, false, false],
            seq![false, false, false, false, false, false, false],
            seq![false, false, false, false, false, false, false],
            seq![false, false, false, false, false, false, false],
            seq![false, false, false, true, true, true, true],
            seq![false, true, true, false, false, true, true],
            seq![true, false, true, false, true, false, true],
            seq![true, true, true, true, true, true, true],
        ],
        r: seq![false, false, false, false, false, false, false, false, false, false, false, false, false, false],
    }
}

/// A caller-supplied generator: one Pauli per qubit and a phase bit.
pub struct GeneratorSpec {
    pub paulis: Vec<PauliError>,
    pub phase: bool,
}

pub open spec fn gens_view(gens: Seq<GeneratorSpec>) -> Seq<(Seq<PauliError>, bool)> {
    gens.map_values(|g: GeneratorSpec| (g.paulis@, g.phase))
}

/// Caller-supplied generators overwrite the stabilizer rows of the fresh
/// tableau: generator `i` becomes stabilizer row `n+i`, column by column.
/// Generators beyond `n` and Paulis beyond the qubit count are ignored, and
/// unspecified entries keep the fresh tableau's values; nothing guarantees
/// that the result satisfies the symplectic invariant (see `check_valid`).
pub open spec fn with_generators_tab(n: nat, gens: Seq<(Seq<PauliError>, bool)>) -> TabV {
    TabV {
        n: n,
        code: None,
        x: Seq::new(2 * n, |i: int| Seq::new(n, |j: int|
            if n <= i && i - n < gens.len() && j < gens[i - n].0.len() {
                pauli_xbit(gens[i - n].0[j])
            } else {
                i == j
            })),
        z: Seq::new(2 * n, |i: int| Seq::new(n, |j: int|
            if n <= i && i - n < gens.len() && j < gens[i - n].0.len() {
                pauli_zbit(gens[i - n].0[j])
            } else {
                i == j + n
            })),
        r: Seq::new(2 * n, |i: int|
            if n <= i && i - n < gens.len() { gens[i - n].1 } else { false }),
    }
}

/// Builds a length-3 row.
fn row3(a: bool, b: bool, c: bool) -> (v: Vec<bool>)
    ensures v@ == seq![a, b, c],
{
    let mut v: Vec<bool> = Vec::new();
    v.push(a);
    v.push(b);
    v.push(c);
    proof { assert(v@ =~= seq![a, b, c]); }
    v
}

/// Builds a length-7 row.
fn row7(a: bool, b: bool, c: bool, d: bool, e: bool, f: bool, g: bool) -> (v: Vec<bool>)
    ensures v@ == seq![a, b, c, d, e, f, g],
{
    let mut v: Vec<bool> = Vec::new();
    v.push(a);
    v.push(b);
    v.push(c);
    v.push(d);
    v.push(e);
    v.push(f);
    v.push(g);
    proof { assert(v@ =~= seq![a, b, c, d, e, f, g]); }
    v
}

/// The stabilizer tableau engine: applies Clifford gates as symplectic row
/// transforms, injects Pauli errors as phase flips, measures syndromes, and
/// decodes them for the preset codes.
#[derive(Debug)]
pub struct StabilizerTableau {
    n: usize,
    code: Option<CodeKind>,
    x: Vec<Vec<bool>>,
    z: Vec<Vec<bool>>,
    r: Vec<bool>,
}

impl View for StabilizerTableau {
    type V = TabV;

    closed spec fn view(&self) -> TabV {
        TabV {
            n: self.n as nat,
            code: self.code,
            x: self.x@.map_values(|v: Vec<bool>| v@),
            z: self.z@.map_values(|v: Vec<bool>| v@),
            r: self.r@,
        }
    }
}

impl StabilizerTableau {
    /// Shape invariant, plus: the stored qubit count is small enough that all
    /// row and column arithmetic stays within `usize`.
    pub open spec fn wf(&self) -> bool {
        &&& tab_wf(self@)
        &&& self@.n <= 0x10000
        &&& self.len_inv()
    }

    /// Lengths of the stored vectors, stated over the fields so that indexing
    /// them verifies directly.
    pub closed spec fn len_inv(&self) -> bool {
        &&& self.x@.len() == 2 * self.n
        &&& self.z@.len() == 2 * self.n
        &&& self.r@.len() == 2 * self.n
        &&& forall|i: int| 0 <= i < self.x@.len() ==> (#[trigger] self.x@[i])@.len() == self.n
        &&& forall|i: int| 0 <= i < self.z@.len() ==> (#[trigger] self.z@[i])@.len() == self.n
    }

    pub fn get_n(&self) -> (r: usize)
        ensures r == self@.n,
    {
        self.n
    }

    pub fn get_code(&self) -> (r: Option<CodeKind>)
        ensures r == self@.code,
    {
        self.code
    }

    pub fn get_x(&self) -> (r: &Vec<Vec<bool>>)
        ensures r@.map_values(|v: Vec<bool>| v@) == self@.x,
    {
        &self.x
    }

    pub fn get_z(&self) -> (r: &Vec<Vec<bool>>)
        ensures r@.map_values(|v: Vec<bool>| v@) == self@.z,
    {
        &self.z
    }

    pub fn get_r(&self) -> (r: &Vec<bool>)
        ensures r@ == self@.r,
    {
        &self.r
    }

    /// The fresh `n`-qubit tableau: X = I above, Z = I below, phases 0.
    pub fn identity(n: usize) -> (t: Self)
        requires 1 <= n <= 0x10000,
        ensures t@ == identity_tab(n as nat), t.wf(),
    {
        let twon = 2 * n;
        let mut x: Vec<Vec<bool>> = Vec::new();
        let mut z: Vec<Vec<bool>> = Vec::new();
        let mut r: Vec<bool> = Vec::new();
        let mut i: usize = 0;
        while i < twon
            invariant
                twon == 2 * n,
                n <= 0x10000,
                i <= twon,
                x@.len() == i,
                z@.len() == i,
                r@.len() == i,
                forall|ii: int| 0 <= ii < i ==> (#[trigger] x@[ii])@ == identity_tab(n as nat).x[ii],
                forall|ii: int| 0 <= ii < i ==> (#[trigger] z@[ii])@ == identity_tab(n as nat).z[ii],
                forall|ii: int| 0 <= ii < i ==> r@[ii] == false,
            decreases twon - i,
        {
            let mut xrow: Vec<bool> = Vec::new();
            let mut zrow: Vec<bool> = Vec::new();
            let mut j: usize = 0;
            while j < n
                invariant
                    j <= n,
                    n <= 0x10000,
                    i < 2 * n,
                    xrow@.len() == j,
                    zrow@.len() == j,
                    forall|jj: int| 0 <= jj < j ==> xrow@[jj] == (i == jj),
                    forall|jj: int| 0 <= jj < j ==> zrow@[jj] == (i == jj + n),
                decreases n - j,
            {
                xrow.push(i == j);
                zrow.push(i == j + n);
                j += 1;
            }
            proof {
                assert(xrow@ =~= identity_tab(n as nat).x[i as int]);
                assert(zrow@ =~= identity_tab(n as nat).z[i as int]);
            }
            x.push(xrow);
            z.push(zrow);
            r.push(false);
            i += 1;
        }
        let t = StabilizerTableau { n, code: None, x, z, r };
        proof {
            assert(t@.x =~= identity_tab(n as nat).x);
            assert(t@.z =~= identity_tab(n as nat).z);
            assert(t@.r =~= identity_tab(n as nat).r);
            assert(t@ =~= identity_tab(n as nat));
        }
        t
    }

    /// Hadamard on column `c` (0-indexed).
    fn do_hadamard(&mut self, c: usize)
        requires old(self).wf(), c < old(self)@.n,
        ensures final(self).wf(), final(self)@ == hadamard_spec(old(self)@, c as int),
    {
        let ghost t0 = self@;
        let twon = 2 * self.n;
        let mut nx: Vec<Vec<bool>> = Vec::new();
        let mut nz: Vec<Vec<bool>> = Vec::new();
        let mut nr: Vec<bool> = Vec::new();
        let mut i: usize = 0;
        while i < twon
            invariant
                self@ == t0,
                self.wf(),
                twon == 2 * self@.n,
                c < self@.n,
                i <= twon,
                nx@.len() == i, nz@.len() == i, nr@.len() == i,
                forall|ii: int| 0 <= ii < i ==> (#[trigger] nx@[ii])@ == hadamard_spec(t0, c as int).x[ii],
                forall|ii: int| 0 <= ii < i ==> (#[trigger] nz@[ii])@ == hadamard_spec(t0, c as int).z[ii],
                forall|ii: int| 0 <= ii < i ==> nr@[ii] == hadamard_spec(t0, c as int).r[ii],
            decreases twon - i,
        {
            let n = self.n;
            let mut xrow: Vec<bool> = Vec::new();
            let mut zrow: Vec<bool> = Vec::new();
            let mut j: usize = 0;
            while j < n
                invariant
                    self@ == t0,
                    self.wf(),
                    n == self@.n,
                    c < n,
                    i < 2 * n,
                    j <= n,
                    xrow@.len() == j, zrow@.len() == j,
                    forall|jj: int| 0 <= jj < j ==> xrow@[jj] == (if jj == c { t0.z[i as int][jj] } else { t0.x[i as int][jj] }),
                    forall|jj: int| 0 <= jj < j ==> zrow@[jj] == (if jj == c { t0.x[i as int][jj] } else { t0.z[i as int][jj] }),
                decreases n - j,
            {
                if j == c {
                    xrow.push(self.z[i][j]);
                    zrow.push(self.x[i][j]);
                } else {
                    xrow.push(self.x[i][j]);
                    zrow.push(self.z[i][j]);
                }
                j += 1;
            }
            proof {
                assert(xrow@ =~= hadamard_spec(t0, c as int).x[i as int]);
                assert(zrow@ =~= hadamard_spec(t0, c as int).z[i as int]);
            }
            nr.push(self.r[i] != (self.x[i][c] && self.z[i][c]));
            nx.push(xrow);
            nz.push(zrow);
            i += 1;
        }
        self.x = nx;
        self.z = nz;
        self.r = nr;
        proof {
            assert(self@.x =~= hadamard_spec(t0, c as int).x);
            assert(self@.z =~= hadamard_spec(t0, c as int).z);
            assert(self@.r =~= hadamard_spec(t0, c as int).r);
            assert(self@ =~= hadamard_spec(t0, c as int));
        }
    }

    /// A Pauli on column `c` (0-indexed): phase-only update.
    fn do_pauli(&mut self, p: PauliError, c: usize)
        requires old(self).wf(), c < old(self)@.n,
        ensures final(self).wf(), final(self)@ == error_spec(old(self)@, p, c as int),
    {
        let ghost t0 = self@;
        let twon = 2 * self.n;
        let mut nr: Vec<bool> = Vec::new();
        let mut i: usize = 0;
        while i < twon
            invariant
                self@ == t0,
                self.wf(),
                twon == 2 * self@.n,
                c < self@.n,
                i <= twon,
                nr@.len() == i,
                forall|ii: int| 0 <= ii < i ==> nr@[ii] == error_spec(t0, p, c as int).r[ii],
            decreases twon - i,
        {
            let flip = match p {
                PauliError::I => false,
                PauliError::X => self.z[i][c],
                PauliError::Z => self.x[i][c],
                PauliError::Y => self.x[i][c] != self.z[i][c],
            };
            nr.push(self.r[i] != flip);
            i += 1;
        }
        self.r = nr;
        proof {
            assert(self@.r =~= error_spec(t0, p, c as int).r);
            assert(self@ =~= error_spec(t0, p, c as int));
        }
    }

    /// CNOT with control column `a` and target column `b` (0-indexed).
    fn do_cnot(&mut self, a: usize, b: usize)
        requires old(self).wf(), a < old(self)@.n, b < old(self)@.n, a != b,
        ensures final(self).wf(), final(self)@ == cnot_spec(old(self)@, a as int, b as int),
    {
        let ghost t0 = self@;
        let twon = 2 * self.n;
        let mut nx: Vec<Vec<bool>> = Vec::new();
        let mut nz: Vec<Vec<bool>> = Vec::new();
        let mut nr: Vec<bool> = Vec::new();
        let mut i: usize = 0;
        while i < twon
            invariant
                self@ == t0,
                self.wf(),
                twon == 2 * self@.n,
                a < self@.n, b < self@.n, a != b,
                i <= twon,
                nx@.len() == i, nz@.len() == i, nr@.len() == i,
                forall|ii: int| 0 <= ii < i ==> (#[trigger] nx@[ii])@ == cnot_spec(t0, a as int, b as int).x[ii],
                forall|ii: int| 0 <= ii < i ==> (#[trigger] nz@[ii])@ == cnot_spec(t0, a as int, b as int).z[ii],
                forall|ii: int| 0 <= ii < i ==> nr@[ii] == cnot_spec(t0, a as int, b as int).r[ii],
            decreases twon - i,
        {
            let n = self.n;
            let mut xrow: Vec<bool> = Vec::new();
            let mut zrow: Vec<bool> = Vec::new();
            let mut j: usize = 0;
            while j < n
                invariant
                    self@ == t0,
                    self.wf(),
                    n == self@.n,
                    a < n, b < n, a != b,
                    i < 2 * n,
                    j <= n,
                    xrow@.len() == j, zrow@.len() == j,
                    forall|jj: int| 0 <= jj < j ==> xrow@[jj] == (if jj == b { t0.x[i as int][b as int] != t0.x[i as int][a as int] } else { t0.x[i as int][jj] }),
                    forall|jj: int| 0 <= jj < j ==> zrow@[jj] == (if jj == a { t0.z[i as int][a as int] != t0.z[i as int][b as int] } else { t0.z[i as int][jj] }),
                decreases n - j,
            {
                if j == b {
                    xrow.push(self.x[i][b] != self.x[i][a]);
                } else {
                    xrow.push(self.x[i][j]);
                }
                if j == a {
                    zrow.push(self.z[i][a] != self.z[i][b]);
                } else {
                    zrow.push(self.z[i][j]);
                }
                j += 1;
            }
            proof {
                assert(xrow@ =~= cnot_spec(t0, a as int, b as int).x[i as int]);
                assert(zrow@ =~= cnot_spec(t0, a as int, b as int).z[i as int]);
            }
            nr.push(self.r[i] != (self.x[i][a] && self.z[i][b] && (self.x[i][b] == self.z[i][a])));
            nx.push(xrow);
            nz.push(zrow);
            i += 1;
        }
        self.x = nx;
        self.z = nz;
        self.r = nr;
        proof {
            assert(self@.x =~= cnot_spec(t0, a as int, b as int).x);
            assert(self@.z =~= cnot_spec(t0, a as int, b as int).z);
            assert(self@.r =~= cnot_spec(t0, a as int, b as int).r);
            assert(self@ =~= cnot_spec(t0, a as int, b as int));
        }
    }

    /// Applies one Clifford gate.  `target` (and `control`, for the two-qubit
    /// gates) are 1-indexed qubit positions.  A position outside `1..=n`, a
    /// missing `control` for CNOT or SWAP, or `control == target` is reported
    /// as `UnknownQubitReference` and leaves the tableau unchanged.
    pub fn apply_clifford(&mut self, op: CliffordOperation, target: usize, control: Option<usize>) -> (res: Result<(), QError>)
        requires old(self).wf(),
        ensures
            final(self).wf(),
            res matches Ok(()) ==> clifford_ok(old(self)@.n, op, target as int, opt_val(control))
                && final(self)@ == clifford_spec(old(self)@, op, target as int, opt_val(control)),
            res matches Err(e) ==> e == QError::UnknownQubitReference && final(self)@ == old(self)@
                && !clifford_ok(old(self)@.n, op, target as int, opt_val(control)),
    {
        let n = self.n;
        if target < 1 || target > n {
            return Err(QError::UnknownQubitReference);
        }
        match op {
            CliffordOperation::HADAMARD => {
                self.do_hadamard(target - 1);
                Ok(())
            },
            CliffordOperation::PAULI_X => { self.do_pauli(PauliError::X, target - 1); Ok(()) },
            CliffordOperation::PAULI_Y => { self.do_pauli(PauliError::Y, target - 1); Ok(()) },
            CliffordOperation::PAULI_Z => { self.do_pauli(PauliError::Z, target - 1); Ok(()) },
            CliffordOperation::CNOT | CliffordOperation::SWAP => {
                let c = match control {
                    Some(c) => c,
                    None => { return Err(QError::UnknownQubitReference); },
                };
                if c < 1 || c > n || c == target {
                    return Err(QError::UnknownQubitReference);
                }
                if matches!(op, CliffordOperation::CNOT) {
                    self.do_cnot(c - 1, target - 1);
                } else {
                    self.do_cnot(c - 1, target - 1);
                    self.do_cnot(target - 1, c - 1);
                    self.do_cnot(c - 1, target - 1);
                }
                Ok(())
            },
        }
    }

    /// Injects a Pauli error on a 1-indexed qubit: flips the phase of every
    /// generator that anticommutes with it.  X/Z bits are never touched.
    pub fn apply_error(&mut self, p: PauliError, qubit: usize) -> (res: Result<(), QError>)
        requires old(self).wf(),
        ensures
            final(self).wf(),
            res matches Ok(()) ==> 1 <= qubit <= old(self)@.n
                && final(self)@ == error_spec(old(self)@, p, qubit - 1),
            res matches Err(e) ==> e == QError::UnknownQubitReference && final(self)@ == old(self)@
                && !(1 <= qubit <= old(self)@.n),
    {
        if qubit < 1 || qubit > self.n {
            return Err(QError::UnknownQubitReference);
        }
        self.do_pauli(p, qubit - 1);
        Ok(())
    }

    /// The syndrome: phase bits of the stabilizer rows, one per generator.
    pub fn measure_syndrome(&self) -> (res: Vec<bool>)
        requires self.wf(),
        ensures res@ == syndrome_spec(self@),
    {
        let n = self.n;
        let mut out: Vec<bool> = Vec::new();
        let mut i: usize = 0;
        while i < n
            invariant
                self.wf(),
                n == self@.n,
                i <= n,
                out@.len() == i,
                forall|ii: int| 0 <= ii < i ==> out@[ii] == self@.r[self@.n + ii],
            decreases n - i,
        {
            out.push(self.r[n + i]);
            i += 1;
        }
        proof { assert(out@ =~= syndrome_spec(self@)); }
        out
    }

    /// The decoder's recommended single-qubit recovery for the current
    /// syndrome, or `None`; see `decode_spec` for the exact lookup.
    pub fn decode_syndrome(&self) -> (res: Option<(PauliError, usize)>)
        requires self.wf(),
        ensures res == decode_spec(self@),
    {
        let n = self.n;
        match self.code {
            None => None,
            Some(CodeKind::BitFlip) => {
                let s0 = self.r[n];
                let s1 = self.r[n + 1];
                if s0 && !s1 { Some((PauliError::X, 1)) }
                else if s0 && s1 { Some((PauliError::X, 2)) }
                else if !s0 && s1 { Some((PauliError::X, 3)) }
                else { None }
            },
            Some(CodeKind::PhaseFlip) => {
                let s0 = self.r[n];
                let s1 = self.r[n + 1];
                if s0 && !s1 { Some((PauliError::Z, 1)) }
                else if s0 && s1 { Some((PauliError::Z, 2)) }
                else if !s0 && s1 { Some((PauliError::Z, 3)) }
                else { None }
            },
            Some(CodeKind::Steane) => {
                let qz = 4 * if self.r[n] { 1usize } else { 0 }
                    + 2 * if self.r[n + 1] { 1 } else { 0 }
                    + if self.r[n + 2] { 1 } else { 0 };
                let qx = 4 * if self.r[n + 3] { 1usize } else { 0 }
                    + 2 * if self.r[n + 4] { 1 } else { 0 }
                    + if self.r[n + 5] { 1 } else { 0 };
                if qx == 0 && qz == 0 { None }
                else if qz == 0 { Some((PauliError::X, qx)) }
                else if qx == 0 { Some((PauliError::Z, qz)) }
                else if qx == qz { Some((PauliError::Y, qx)) }
                else { None }
            },
        }
    }

    /// An independent copy with the same tableau contents.
    pub fn snapshot(&self) -> (t: Self)
        requires self.wf(),
        ensures t@ == self@, t.wf(),
    {
        let twon = 2 * self.n;
        let mut nx: Vec<Vec<bool>> = Vec::new();
        let mut nz: Vec<Vec<bool>> = Vec::new();
        let mut nr: Vec<bool> = Vec::new();
        let mut i: usize = 0;
        while i < twon
            invariant
                self.wf(),
                twon == 2 * self@.n,
                i <= twon,
                nx@.len() == i, nz@.len() == i, nr@.len() == i,
                forall|ii: int| 0 <= ii < i ==> (#[trigger] nx@[ii])@ == self@.x[ii],
                forall|ii: int| 0 <= ii < i ==> (#[trigger] nz@[ii])@ == self@.z[ii],
                forall|ii: int| 0 <= ii < i ==> nr@[ii] == self@.r[ii],
            decreases twon - i,
        {
            let n = self.n;
            let mut xrow: Vec<bool> = Vec::new();
            let mut zrow: Vec<bool> = Vec::new();
            let mut j: usize = 0;
            while j < n
                invariant
                    self.wf(),
                    n == self@.n,
                    i < 2 * n,
                    j <= n,
                    xrow@.len() == j, zrow@.len() == j,
                    forall|jj: int| 0 <= jj < j ==> xrow@[jj] == self@.x[i as int][jj],
                    forall|jj: int| 0 <= jj < j ==> zrow@[jj] == self@.z[i as int][jj],
                decreases n - j,
            {
                xrow.push(self.x[i][j]);
                zrow.push(self.z[i][j]);
                j += 1;
            }
            proof {
                assert(xrow@ =~= self@.x[i as int]);
                assert(zrow@ =~= self@.z[i as int]);
            }
            nx.push(xrow);
            nz.push(zrow);
            nr.push(self.r[i]);
            i += 1;
        }
        let t = StabilizerTableau { n: self.n, code: self.code, x: nx, z: nz, r: nr };
        proof {
            assert(t@.x =~= self@.x);
            assert(t@.z =~= self@.z);
            assert(t@.r =~= self@.r);
            assert(t@ =~= self@);
        }
        t
    }

    /// The three-qubit bit-flip code preset.
    pub fn three_qubit_bit_flip() -> (t: Self)
        ensures t@ == bit_flip_tab(), t.wf(),
    {
        let f = false;
        let mut x: Vec<Vec<bool>> = Vec::new();
        x.push(row3(f, true, true));
        x.push(row3(true, true, f));
        x.push(row3(true, true, true));
        x.push(row3(f, f, f));
        x.push(row3(f, f, f));
        x.push(row3(f, f, f));
        let mut z: Vec<Vec<bool>> = Vec::new();
        z.push(row3(f, f, f));
        z.push(row3(f, f, f));
        z.push(row3(f, f, f));
        z.push(row3(true, true, f));
        z.push(row3(f, true, true));
        z.push(row3(true, true, true));
        let mut r: Vec<bool> = Vec::new();
        let mut i: usize = 0;
        while i < 6
            invariant i <= 6, r@.len() == i, forall|k: int| 0 <= k < i ==> r@[k] == false,
            decreases 6 - i,
        {
            r.push(false);
            i += 1;
        }
        let t = StabilizerTableau { n: 3, code: Some(CodeKind::BitFlip), x, z, r };
        proof {
            assert(t@.x =~= bit_flip_tab().x);
            assert(t@.z =~= bit_flip_tab().z);
            assert(t@.r =~= bit_flip_tab().r);
            assert(t@ =~= bit_flip_tab());
        }
        t
    }

    /// The three-qubit phase-flip code preset.
    pub fn three_qubit_phase_flip() -> (t: Self)
        ensures t@ == phase_flip_tab(), t.wf(),
    {
        let f = false;
        let mut x: Vec<Vec<bool>> = Vec::new();
        x.push(row3(f, f, f));
        x.push(row3(f, f, f));
        x.push(row3(f, f, f));
        x.push(row3(true, true, f));
        x.push(row3(f, true, true));
        x.push(row3(true, true, true));
        let mut z: Vec<Vec<bool>> = Vec::new();
        z.push(row3(f, true, true));
        z.push(row3(true, true, f));
        z.push(row3(true, true, true));
        z.push(row3(f, f, f));
        z.push(row3(f, f, f));
        z.push(row3(f, f, f));
        let mut r: Vec<bool> = Vec::new();
        let mut i: usize = 0;
        while i < 6
            invariant i <= 6, r@.len() == i, forall|k: int| 0 <= k < i ==> r@[k] == false,
            decreases 6 - i,
        {
            r.push(false);
            i += 1;
        }
        let t = StabilizerTableau { n: 3, code: Some(CodeKind::PhaseFlip), x, z, r };
        proof {
            assert(t@.x =~= phase_flip_tab().x);
            assert(t@.z =~= phase_flip_tab().z);
            assert(t@.r =~= phase_flip_tab().r);
            assert(t@ =~= phase_flip_tab());
        }
        t
    }

    /// The seven-qubit Steane code preset.
    pub fn steane_code() -> (t: Self)
        ensures t@ == steane_tab(), t.wf(),
    {
        let f = false;
        let t_ = true;
        let mut x: Vec<Vec<bool>> = Vec::new();
        x.push(row7(f, f, f, f, f, f, f));
        x.push(row7(f, f, f, f, f, f, f));
        x.push(row7(f, f, f, f, f, f, f));
        x.push(row7(f, f, t_, f, f, f, t_));
        x.push(row7(f, f, f, f, t_, f, t_));
        x.push(row7(f, f, f, f, f, t_, t_));
        x.push(row7(f, f, t_, f, t_, t_, f));
        x.push(row7(f, f, f, t_, t_, t_, t_));
        x.push(row7(f, t_, t_, f, f, t_, t_));
        x.push(row7(t_, f, t_, f, t_, f, t_));
        x.push(row7(f, f, f, f, f, f, f));
        x.push(row7(f, f, f, f, f, f, f));
        x.push(row7(f, f, f, f, f, f, f));
        x.push(row7(f, f, f, f, f, f, f));
        let mut z: Vec<Vec<bool>> = Vec::new();
        z.push(row7(f, f, f, t_, f, f, f));
        z.push(row7(f, t_, f, f, f, f, f));
        z.push(row7(t_, f, f, f, f, f, f));
        z.push(row7(f, f, f, f, f, f, f));
        z.push(row7(f, f, f, f, f, f, f));
        z.push(row7(f, f, f, f, f, f, f));
        z.push(row7(f, f, f, f, f, f, f));
        z.push(row7(f, f, f, f, f, f, f));
        z.push(row7(f, f, f, f, f, f, f));
        z.push(row7(f, f, f, f, f, f, f));
        z.push(row7(f, f, f, t_, t_, t_, t_));
        z.push(row7(f, t_, t_, f, f, t_, t_));
        z.push(row7(t_, f, t_, f, t_, f, t_));
        z.push(row7(t_, t_, t_, t_, t_, t_, t_));
        let mut r: Vec<bool> = Vec::new();
        let mut i: usize = 0;
        while i < 14
            invariant i <= 14, r@.len() == i, forall|k: int| 0 <= k < i ==> r@[k] == false,
            decreases 14 - i,
        {
            r.push(false);
            i += 1;
        }
        let t = StabilizerTableau { n: 7, code: Some(CodeKind::Steane), x, z, r };
        proof {
            assert(t@.x =~= steane_tab().x);
            assert(t@.z =~= steane_tab().z);
            assert(t@.r =~= steane_tab().r);
            assert(t@ =~= steane_tab());
        }
        t
    }

    /// A custom tableau: the fresh `n`-qubit tableau with the caller's
    /// generators written into the stabilizer rows (see `with_generators_tab`
    /// for the exact truncation rules).  The result is not checked against
    /// the symplectic invariant; `check_valid` does that on demand.
    pub fn with_generators(n: usize, gens: &Vec<GeneratorSpec>) -> (t: Self)
        requires 1 <= n <= 0x10000,
        ensures t@ == with_generators_tab(n as nat, gens_view(gens@)), t.wf(),
    {
        let ghost gv = gens_view(gens@);
        let ghost target = with_generators_tab(n as nat, gens_view(gens@));
        let twon = 2 * n;
        let mut x: Vec<Vec<bool>> = Vec::new();
        let mut z: Vec<Vec<bool>> = Vec::new();
        let mut r: Vec<bool> = Vec::new();
        let mut i: usize = 0;
        while i < twon
            invariant
                twon == 2 * n,
                1 <= n <= 0x10000,
                gv == gens_view(gens@),
                target == with_generators_tab(n as nat, gv),
                i <= twon,
                x@.len() == i, z@.len() == i, r@.len() == i,
                forall|ii: int| 0 <= ii < i ==> (#[trigger] x@[ii])@ == target.x[ii],
                forall|ii: int| 0 <= ii < i ==> (#[trigger] z@[ii])@ == target.z[ii],
                forall|ii: int| 0 <= ii < i ==> r@[ii] == target.r[ii],
            decreases twon - i,
        {
            let in_gens = i >= n && i - n < gens.len();
            let mut xrow: Vec<bool> = Vec::new();
            let mut zrow: Vec<bool> = Vec::new();
            let mut j: usize = 0;
            while j < n
                invariant
                    1 <= n <= 0x10000,
                    gv == gens_view(gens@),
                    target == with_generators_tab(n as nat, gv),
                    i < 2 * n,
                    in_gens == (i >= n && i - n < gens@.len()),
                    j <= n,
                    xrow@.len() == j, zrow@.len() == j,
                    forall|jj: int| 0 <= jj < j ==> xrow@[jj] == target.x[i as int][jj],
                    forall|jj: int| 0 <= jj < j ==> zrow@[jj] == target.z[i as int][jj],
                decreases n - j,
            {
                if in_gens && j < gens[i - n].paulis.len() {
                    let p = gens[i - n].paulis[j];
                    xrow.push(matches!(p, PauliError::X) || matches!(p, PauliError::Y));
                    zrow.push(matches!(p, PauliError::Z) || matches!(p, PauliError::Y));
                } else {
                    xrow.push(i == j);
                    zrow.push(i == j + n);
                }
                j += 1;
            }
            proof {
                assert(xrow@ =~= target.x[i as int]);
                assert(zrow@ =~= target.z[i as int]);
            }
            if in_gens {
                r.push(gens[i - n].phase);
            } else {
                r.push(false);
            }
            x.push(xrow);
            z.push(zrow);
            i += 1;
        }
        let t = StabilizerTableau { n, code: None, x, z, r };
        proof {
            assert(t@.x =~= target.x);
            assert(t@.z =~= target.z);
            assert(t@.r =~= target.r);
            assert(t@ =~= target);
        }
        t
    }

    /// Checks the symplectic commutation invariant of the whole tableau.
    pub fn check_valid(&self) -> (res: bool)
        requires self.wf(),
        ensures res == tab_valid(self@),
    {
        let n = self.n;
        let twon = 2 * n;
        let mut i: usize = 0;
        while i < twon
            invariant
                self.wf(),
                n == self@.n,
                twon == 2 * n,
                i <= twon,
                forall|ii: int, jj: int| 0 <= ii < i && 0 <= jj < twon ==>
                    #[trigger] sprod(self@.x[ii], self@.z[ii], self@.x[jj], self@.z[jj], self@.n)
                        == (ii + self@.n == jj || jj + self@.n == ii),
            decreases twon - i,
        {
            let mut j: usize = 0;
            while j < twon
                invariant
                    self.wf(),
                    n == self@.n,
                    twon == 2 * n,
                    i < twon,
                    j <= twon,
                    forall|jj: int| 0 <= jj < j ==>
                        #[trigger] sprod(self@.x[i as int], self@.z[i as int], self@.x[jj], self@.z[jj], self@.n)
                            == (i + self@.n == jj || jj + self@.n == i),
                decreases twon - j,
            {
                let mut acc = false;
                let mut k: usize = 0;
                while k < n
                    invariant
                        self.wf(),
                        n == self@.n,
                        i < 2 * n, j < 2 * n,
                        k <= n,
                        acc == sprod(self@.x[i as int], self@.z[i as int], self@.x[j as int], self@.z[j as int], k as nat),
                    decreases n - k,
                {
                    acc = acc != ((self.x[i][k] && self.z[j][k]) != (self.z[i][k] && self.x[j][k]));
                    k += 1;
                }
                let expected = i + n == j || j + n == i;
                if acc != expected {
                    proof { assert(!tab_valid(self@)); }
                    return false;
                }
                j += 1;
            }
            i += 1;
        }
        proof { assert(tab_valid(self@)); }
        true
    }
}


proof fn lemma_sprod_same(
    x1: Seq<bool>, z1: Seq<bool>, u1: Seq<bool>, w1: Seq<bool>,
    x2: Seq<bool>, z2: Seq<bool>, u2: Seq<bool>, w2: Seq<bool>, m: nat,
)
    requires
        forall|k: int| 0 <= k < m ==> #[trigger] sterm(x1, z1, u1, w1, k) == sterm(x2, z2, u2, w2, k),
    ensures
        sprod(x1, z1, u1, w1, m) == sprod(x2, z2, u2, w2, m),
    decreases m,
{
    if m > 0 {
        lemma_sprod_same(x1, z1, u1, w1, x2, z2, u2, w2, (m - 1) as nat);
    }
}

proof fn lemma_sprod_diff1(
    x1: Seq<bool>, z1: Seq<bool>, u1: Seq<bool>, w1: Seq<bool>,
    x2: Seq<bool>, z2: Seq<bool>, u2: Seq<bool>, w2: Seq<bool>, a: int, m: nat,
)
    requires
        0 <= a < m,
        forall|k: int| 0 <= k < m && k != a ==> #[trigger] sterm(x1, z1, u1, w1, k) == sterm(x2, z2, u2, w2, k),
    ensures
        sprod(x2, z2, u2, w2, m) == (sprod(x1, z1, u1, w1, m) != (sterm(x1, z1, u1, w1, a) != sterm(x2, z2, u2, w2, a))),
    decreases m,
{
    if m - 1 == a {
        lemma_sprod_same(x1, z1, u1, w1, x2, z2, u2, w2, (m - 1) as nat);
    } else {
        lemma_sprod_diff1(x1, z1, u1, w1, x2, z2, u2, w2, a, (m - 1) as nat);
    }
}

proof fn lemma_sprod_diff2(
    x1: Seq<bool>, z1: Seq<bool>, u1: Seq<bool>, w1: Seq<bool>,
    x2: Seq<bool>, z2: Seq<bool>, u2: Seq<bool>, w2: Seq<bool>, a: int, b: int, m: nat,
)
    requires
        0 <= a < m,
        0 <= b < m,
        a != b,
        forall|k: int| 0 <= k < m && k != a && k != b ==> #[trigger] sterm(x1, z1, u1, w1, k) == sterm(x2, z2, u2, w2, k),
    ensures
        sprod(x2, z2, u2, w2, m) == ((sprod(x1, z1, u1, w1, m)
            != (sterm(x1, z1, u1, w1, a) != sterm(x2, z2, u2, w2, a)))
            != (sterm(x1, z1, u1, w1, b) != sterm(x2, z2, u2, w2, b))),
    decreases m,
{
    if m - 1 == a {
        lemma_sprod_diff1(x1, z1, u1, w1, x2, z2, u2, w2, b, (m - 1) as nat);
    } else if m - 1 == b {
        lemma_sprod_diff1(x1, z1, u1, w1, x2, z2, u2, w2, a, (m - 1) as nat);
    } else {
        lemma_sprod_diff2(x1, z1, u1, w1, x2, z2, u2, w2, a, b, (m - 1) as nat);
    }
}

/// Hadamard preserves shape and the symplectic commutation invariant: the
/// per-column contribution is symmetric in the X/Z swap.
pub proof fn lemma_hadamard_preserves_valid(t: TabV, c: int)
    requires tab_wf(t), 0 <= c < t.n, tab_valid(t),
    ensures tab_wf(hadamard_spec(t, c)), tab_valid(hadamard_spec(t, c)),
{
    let h = hadamard_spec(t, c);
    assert forall|i: int, j: int| 0 <= i < 2 * h.n && 0 <= j < 2 * h.n implies
        #[trigger] sprod(h.x[i], h.z[i], h.x[j], h.z[j], h.n) == (i + h.n == j || j + h.n == i) by {
        assert forall|k: int| 0 <= k < t.n implies
            #[trigger] sterm(t.x[i], t.z[i], t.x[j], t.z[j], k) == sterm(h.x[i], h.z[i], h.x[j], h.z[j], k) by {
            assert(h.x[i][k] == if k == c { t.z[i][k] } else { t.x[i][k] });
            assert(h.z[i][k] == if k == c { t.x[i][k] } else { t.z[i][k] });
            assert(h.x[j][k] == if k == c { t.z[j][k] } else { t.x[j][k] });
            assert(h.z[j][k] == if k == c { t.x[j][k] } else { t.z[j][k] });
        }
        lemma_sprod_same(t.x[i], t.z[i], t.x[j], t.z[j], h.x[i], h.z[i], h.x[j], h.z[j], t.n);
        assert(sprod(t.x[i], t.z[i], t.x[j], t.z[j], t.n) == (i + t.n == j || j + t.n == i));
    }
}

/// CNOT preserves shape and the symplectic commutation invariant: the
/// contributions of the control and target columns change by the same
/// amount, so their GF(2) sum is unchanged.
pub proof fn lemma_cnot_preserves_valid(t: TabV, a: int, b: int)
    requires tab_wf(t), 0 <= a < t.n, 0 <= b < t.n, a != b, tab_valid(t),
    ensures tab_wf(cnot_spec(t, a, b)), tab_valid(cnot_spec(t, a, b)),
{
    let h = cnot_spec(t, a, b);
    assert forall|i: int, j: int| 0 <= i < 2 * h.n && 0 <= j < 2 * h.n implies
        #[trigger] sprod(h.x[i], h.z[i], h.x[j], h.z[j], h.n) == (i + h.n == j || j + h.n == i) by {
        assert forall|k: int| 0 <= k < t.n && k != a && k != b implies
            #[trigger] sterm(t.x[i], t.z[i], t.x[j], t.z[j], k) == sterm(h.x[i], h.z[i], h.x[j], h.z[j], k) by {
            assert(h.x[i][k] == t.x[i][k]);
            assert(h.z[i][k] == t.z[i][k]);
            assert(h.x[j][k] == t.x[j][k]);
            assert(h.z[j][k] == t.z[j][k]);
        }
        lemma_sprod_diff2(t.x[i], t.z[i], t.x[j], t.z[j], h.x[i], h.z[i], h.x[j], h.z[j], a, b, t.n);
        assert(h.x[i][a] == t.x[i][a] && h.z[i][b] == t.z[i][b] && h.x[i][b] == (t.x[i][b] != t.x[i][a]) && h.z[i][a] == (t.z[i][a] != t.z[i][b]));
        assert(h.x[j][a] == t.x[j][a] && h.z[j][b] == t.z[j][b] && h.x[j][b] == (t.x[j][b] != t.x[j][a]) && h.z[j][a] == (t.z[j][a] != t.z[j][b]));
        assert((sterm(t.x[i], t.z[i], t.x[j], t.z[j], a) != sterm(h.x[i], h.z[i], h.x[j], h.z[j], a))
            == (sterm(t.x[i], t.z[i], t.x[j], t.z[j], b) != sterm(h.x[i], h.z[i], h.x[j], h.z[j], b)));
        assert(sprod(t.x[i], t.z[i], t.x[j], t.z[j], t.n) == (i + t.n == j || j + t.n == i));
    }
}

/// A Pauli error only flips phases, so it trivially preserves the invariant.
pub proof fn lemma_error_preserves_valid(t: TabV, p: PauliError, c: int)
    requires tab_wf(t), tab_valid(t),
    ensures tab_wf(error_spec(t, p, c)), tab_valid(error_spec(t, p, c)),
{
}

/// One Clifford gate of the engine preserves shape and the symplectic
/// commutation invariant of the tableau.
pub proof fn lemma_clifford_preserves_valid(t: TabV, op: CliffordOperation, target: int, control: int)
    requires tab_wf(t), tab_valid(t), clifford_ok(t.n, op, target, control),
    ensures
        tab_wf(clifford_spec(t, op, target, control)),
        tab_valid(clifford_spec(t, op, target, control)),
        clifford_spec(t, op, target, control).n == t.n,
        clifford_spec(t, op, target, control).code == t.code,
{
    match op {
        CliffordOperation::HADAMARD => lemma_hadamard_preserves_valid(t, target - 1),
        CliffordOperation::PAULI_X => lemma_error_preserves_valid(t, PauliError::X, target - 1),
        CliffordOperation::PAULI_Y => lemma_error_preserves_valid(t, PauliError::Y, target - 1),
        CliffordOperation::PAULI_Z => lemma_error_preserves_valid(t, PauliError::Z, target - 1),
        CliffordOperation::CNOT => lemma_cnot_preserves_valid(t, control - 1, target - 1),
        CliffordOperation::SWAP => {
            let t1 = cnot_spec(t, control - 1, target - 1);
            lemma_cnot_preserves_valid(t, control - 1, target - 1);
            let t2 = cnot_spec(t1, target - 1, control - 1);
            lemma_cnot_preserves_valid(t1, target - 1, control - 1);
            lemma_cnot_preserves_valid(t2, control - 1, target - 1);
        },
    }
}

/// Applying CNOT on the same control and target twice restores the tableau
/// exactly, phases included.
pub proof fn lemma_cnot_involution(t: TabV, a: int, b: int)
    requires tab_wf(t), 0 <= a < t.n, 0 <= b < t.n, a != b,
    ensures cnot_spec(cnot_spec(t, a, b), a, b) == t,
{
    let t1 = cnot_spec(t, a, b);
    let t2 = cnot_spec(t1, a, b);
    assert forall|i: int| 0 <= i < t.x.len() implies #[trigger] t2.x[i] == t.x[i] by {
        assert forall|j: int| 0 <= j < t.n implies #[trigger] t2.x[i][j] == t.x[i][j] by {
            assert(t1.x[i][b] == (t.x[i][b] != t.x[i][a]));
            if j != b { assert(t1.x[i][j] == t.x[i][j]); }
        }
        assert(t2.x[i] =~= t.x[i]);
    }
    assert forall|i: int| 0 <= i < t.z.len() implies #[trigger] t2.z[i] == t.z[i] by {
        assert forall|j: int| 0 <= j < t.n implies #[trigger] t2.z[i][j] == t.z[i][j] by {
            assert(t1.z[i][a] == (t.z[i][a] != t.z[i][b]));
            if j != a { assert(t1.z[i][j] == t.z[i][j]); }
        }
        assert(t2.z[i] =~= t.z[i]);
    }
    assert forall|i: int| 0 <= i < t.r.len() implies t2.r[i] == t.r[i] by {
        assert(t1.r[i] == (t.r[i] != (t.x[i][a] && t.z[i][b] && (t.x[i][b] == t.z[i][a]))));
        assert(t1.x[i][a] == t.x[i][a] && t1.z[i][b] == t.z[i][b]);
        assert(t1.x[i][b] == (t.x[i][b] != t.x[i][a]) && t1.z[i][a] == (t.z[i][a] != t.z[i][b]));
    }
    assert(t2.x =~= t.x);
    assert(t2.z =~= t.z);
    assert(t2.r =~= t.r);
    assert(t2 =~= t);
}

} // verus!
