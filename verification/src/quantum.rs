//! The quantum register: owns the state vector, allocates zero-initialised
//! qubits by tensor product, applies gates, and reports the resulting
//! amplitude distribution.

use vstd::prelude::*;
use vstd::arithmetic::power2::{lemma2_to64, lemma_pow2_strictly_increases, lemma_pow2_unfold, pow2};
use crate::complex::{cq_bounded, cq_mul, cq_one, cq_zero, coeff_limit, Amp, Quad, CQ};
use crate::matrix::{
    dim_cap, ent, gate_wf, gv, modexp2_spec, mp_tensor, qview, sm_cme, sm_cr, sm_h, sm_id, sm_vec,
    sm_x, tensor, tensor_ok, vec_bounded, vec_mul, vec_mul_ok, Gate, MatP,
};

verus! {

/// Floor of the base-two logarithm.
pub open spec fn lg(n: nat) -> nat
    decreases n,
{
    if n <= 1 {
        0
    } else {
        1 + lg(n / 2)
    }
}

proof fn lemma_lg_pow2(m: nat)
    ensures
        lg(pow2(m)) == m,
    decreases m,
{
    if m == 0 {
        assert(pow2(0) == 1) by {
            lemma2_to64();
        }
    } else {
        lemma_pow2_unfold(m);
        vstd::arithmetic::power2::lemma_pow2_pos((m - 1) as nat);
        lemma_lg_pow2((m - 1) as nat);
        assert(pow2(m) / 2 == pow2((m - 1) as nat));
    }
}

/// A single qubit: the amplitudes of its two basis states, over the
/// denominator `2^k`.
pub struct Qubit {
    pub a0: Quad,
    pub a1: Quad,
    pub k: u32,
}

pub open spec fn qubit_wf(q: Qubit) -> bool {
    &&& cq_bounded(q.a0@, coeff_limit())
    &&& cq_bounded(q.a1@, coeff_limit())
    &&& q.k <= 0x1000_0000
}

impl Qubit {
    /// The basis state 0: amplitude vector `[1, 0]`.
    pub fn ground() -> (q: Qubit)
        ensures
            q.a0@ == cq_one(),
            q.a1@ == cq_zero(),
            q.k == 0,
            qubit_wf(q),
    {
        Qubit { a0: Quad { a: 1, b: 0, c: 0, d: 0 }, a1: Quad { a: 0, b: 0, c: 0, d: 0 }, k: 0 }
    }
}

/// State of a register after one more qubit is tensored on: amplitude
/// `2i` is `st[i] * x0` and amplitude `2i+1` is `st[i] * x1`.
pub open spec fn qb_tensor(st: Seq<CQ>, x0: CQ, x1: CQ) -> Seq<CQ> {
    Seq::new(
        st.len() * 2,
        |i: int|
            if i % 2 == 0 {
                cq_mul(st[i / 2], x0)
            } else {
                cq_mul(st[i / 2], x1)
            },
    )
}

/// State vector after a fresh zero qubit is appended; an empty register
/// becomes the single-qubit ground state.
pub open spec fn grow_zero(st: Seq<CQ>) -> Seq<CQ> {
    if st.len() == 0 {
        seq![cq_one(), cq_zero()]
    } else {
        qb_tensor(st, cq_one(), cq_zero())
    }
}

/// `count` fresh zero qubits appended in order.
pub open spec fn grow_zeros(st: Seq<CQ>, count: nat) -> Seq<CQ>
    decreases count,
{
    if count == 0 {
        st
    } else {
        grow_zero(grow_zeros(st, (count - 1) as nat))
    }
}

/// Length of the state vector after `count` fresh qubits.
pub open spec fn grow_len(len: nat, count: nat) -> nat
    decreases count,
{
    if count == 0 {
        len
    } else {
        let l = grow_len(len, (count - 1) as nat);
        if l == 0 {
            2
        } else {
            l * 2
        }
    }
}

proof fn lemma_grow_zeros_len(st: Seq<CQ>, count: nat)
    ensures
        grow_zeros(st, count).len() == grow_len(st.len(), count),
    decreases count,
{
    if count > 0 {
        lemma_grow_zeros_len(st, (count - 1) as nat);
    }
}

proof fn lemma_grow_len_mono(len: nat, c1: nat, c2: nat)
    requires
        c1 <= c2,
    ensures
        grow_len(len, c1) <= grow_len(len, c2),
    decreases c2,
{
    if c1 < c2 {
        lemma_grow_len_mono(len, c1, (c2 - 1) as nat);
    }
}

/// Whether position `i` occurs in the handle list.
pub open spec fn listed(qb: Seq<u32>, i: int) -> bool {
    exists|j: int| 0 <= j < qb.len() && qb[j] == i
}

/// The one-qubit identity as a scaled matrix.
pub open spec fn mp_id2() -> MatP {
    MatP { e: sm_id(2), k: 0 }
}

/// The bit-flip gate as a scaled matrix.
pub open spec fn mp_x() -> MatP {
    MatP { e: sm_x(), k: 0 }
}

/// The Hadamard gate as a scaled matrix.
pub open spec fn mp_h() -> MatP {
    MatP { e: sm_h(), k: 1 }
}

/// Per-position gates used to expand a one-qubit gate to register width:
/// a copy on listed positions, the identity elsewhere.
pub open spec fn pos_gates(gp: MatP, nob: nat, qb: Seq<u32>) -> Seq<MatP> {
    Seq::new(
        nob,
        |i: int|
            if listed(qb, i) {
                gp
            } else {
                mp_id2()
            },
    )
}

/// Left fold of a non-empty gate sequence under the tensor product.
pub open spec fn mp_fold(gs: Seq<MatP>) -> MatP
    decreases gs.len(),
{
    if gs.len() <= 1 {
        gs[0]
    } else {
        mp_tensor(mp_fold(gs.drop_last()), gs.last())
    }
}

/// Every intermediate tensor product of the fold is representable.
pub open spec fn mp_fold_ok(gs: Seq<MatP>) -> bool
    decreases gs.len(),
{
    if gs.len() <= 1 {
        true
    } else {
        mp_fold_ok(gs.drop_last()) && tensor_ok(mp_fold(gs.drop_last()), gs.last())
    }
}

/// Views of a vector of gates.
pub open spec fn gates_v(gs: Seq<Gate>) -> Seq<MatP> {
    gs.map_values(|g: Gate| gv(g))
}

/// Success condition for applying a one-qubit gate through its expansion:
/// the expansion is representable, the new state fits, and the
/// denominator exponents combine.
pub open spec fn apply_with_ok(gp: MatP, nob: nat, qb: Seq<u32>, st: Seq<CQ>, k: nat) -> bool {
    let gs = pos_gates(gp, nob, qb);
    &&& mp_fold_ok(gs)
    &&& vec_mul_ok(mp_fold(gs).e, st)
    &&& k + mp_fold(gs).k <= 0xffff_ffff
}

/// State after the first `steps` controlled modular-exponentiation gates,
/// where control `ctrls[j]` carries the exponent factor
/// `a^(2^j) mod n`.
pub open spec fn cme_chain(
    nob: nat,
    a: nat,
    n: nat,
    ctrls: Seq<u32>,
    tlen: nat,
    st: Seq<CQ>,
    steps: nat,
) -> Seq<CQ>
    decreases steps,
{
    if steps == 0 {
        st
    } else {
        sm_vec(
            sm_cme(
                nob,
                modexp2_spec(a, (steps - 1) as nat, n),
                n,
                ctrls[steps - 1] as nat,
                tlen,
            ),
            cme_chain(nob, a, n, ctrls, tlen, st, (steps - 1) as nat),
        )
    }
}

/// Every state along that chain fits in the representation.
pub open spec fn cme_chain_ok(
    nob: nat,
    a: nat,
    n: nat,
    ctrls: Seq<u32>,
    tlen: nat,
    st: Seq<CQ>,
    steps: nat,
) -> bool
    decreases steps,
{
    if steps == 0 {
        true
    } else {
        &&& cme_chain_ok(nob, a, n, ctrls, tlen, st, (steps - 1) as nat)
        &&& vec_mul_ok(
            sm_cme(
                nob,
                modexp2_spec(a, (steps - 1) as nat, n),
                n,
                ctrls[steps - 1] as nat,
                tlen,
            ),
            cme_chain(nob, a, n, ctrls, tlen, st, (steps - 1) as nat),
        )
    }
}

/// Power of `w` for the inverse rotation by `-2*pi / 2^p`: `w^(8 - 8/2^p)`
/// for the precisions `p` the eighth roots of unity can express.
pub open spec fn iqft_phase(p: nat) -> nat {
    if p == 1 {
        4
    } else if p == 2 {
        6
    } else {
        7
    }
}

/// The Hadamard gate expanded to register width at one position.
pub open spec fn hexp(nob: nat, pos: u32) -> MatP {
    mp_fold(pos_gates(mp_h(), nob, seq![pos]))
}

/// State after the inverse rotations of outer position `i` whose inner
/// index is at least `j` (the rotations are applied from the last inner
/// position down).
pub open spec fn iqft_inner(nob: nat, qb: Seq<u32>, i: int, j: int, st: Seq<CQ>) -> Seq<CQ>
    decreases qb.len() - j,
{
    if j < 0 || j >= qb.len() {
        st
    } else {
        sm_vec(
            sm_cr(nob, iqft_phase((j - i + 1) as nat), qb[j] as nat, qb[i] as nat),
            iqft_inner(nob, qb, i, j + 1, st),
        )
    }
}

/// Every state along those rotations fits in the representation.
pub open spec fn iqft_inner_ok(nob: nat, qb: Seq<u32>, i: int, j: int, st: Seq<CQ>) -> bool
    decreases qb.len() - j,
{
    if j < 0 || j >= qb.len() {
        true
    } else {
        &&& iqft_inner_ok(nob, qb, i, j + 1, st)
        &&& vec_mul_ok(
            sm_cr(nob, iqft_phase((j - i + 1) as nat), qb[j] as nat, qb[i] as nat),
            iqft_inner(nob, qb, i, j + 1, st),
        )
    }
}

/// State after processing the outer positions from the last down to `i`:
/// for each, the inverse rotations against all later positions, then a
/// Hadamard.
pub open spec fn iqft_outer(nob: nat, qb: Seq<u32>, i: int, st: Seq<CQ>) -> Seq<CQ>
    decreases qb.len() - i,
{
    if i < 0 || i >= qb.len() {
        st
    } else {
        sm_vec(
            hexp(nob, qb[i]).e,
            iqft_inner(nob, qb, i, i + 1, iqft_outer(nob, qb, i + 1, st)),
        )
    }
}

/// Denominator exponent the Hadamards of positions at or after `i` add.
pub open spec fn iqft_k(nob: nat, qb: Seq<u32>, i: int) -> nat
    decreases qb.len() - i,
{
    if i < 0 || i >= qb.len() {
        0
    } else {
        hexp(nob, qb[i]).k + iqft_k(nob, qb, i + 1)
    }
}

/// Every state and expansion in the whole pass fits.
pub open spec fn iqft_ok(nob: nat, qb: Seq<u32>, i: int, st: Seq<CQ>, k0: nat) -> bool
    decreases qb.len() - i,
{
    if i < 0 || i >= qb.len() {
        true
    } else {
        &&& iqft_ok(nob, qb, i + 1, st, k0)
        &&& iqft_inner_ok(nob, qb, i, i + 1, iqft_outer(nob, qb, i + 1, st))
        &&& apply_with_ok(
            mp_h(),
            nob,
            seq![qb[i]],
            iqft_inner(nob, qb, i, i + 1, iqft_outer(nob, qb, i + 1, st)),
            k0 + iqft_k(nob, qb, i + 1),
        )
    }
}

proof fn lemma_iqft_ok_mono(nob: nat, qb: Seq<u32>, i1: int, i2: int, st: Seq<CQ>, k0: nat)
    requires
        0 <= i1 <= i2,
        iqft_ok(nob, qb, i1, st, k0),
    ensures
        iqft_ok(nob, qb, i2, st, k0),
    decreases i2 - i1,
{
    if i1 < i2 && i1 < qb.len() {
        lemma_iqft_ok_mono(nob, qb, i1 + 1, i2, st, k0);
    }
}

proof fn lemma_iqft_inner_ok_mono(
    nob: nat,
    qb: Seq<u32>,
    i: int,
    j1: int,
    j2: int,
    st: Seq<CQ>,
)
    requires
        0 <= j1 <= j2,
        iqft_inner_ok(nob, qb, i, j1, st),
    ensures
        iqft_inner_ok(nob, qb, i, j2, st),
    decreases j2 - j1,
{
    if j1 < j2 && j1 < qb.len() {
        lemma_iqft_inner_ok_mono(nob, qb, i, j1 + 1, j2, st);
    }
}

proof fn lemma_cme_ok_down(
    nob: nat,
    a: nat,
    n: nat,
    ctrls: Seq<u32>,
    tlen: nat,
    st: Seq<CQ>,
    s1: nat,
    s2: nat,
)
    requires
        s1 <= s2,
        cme_chain_ok(nob, a, n, ctrls, tlen, st, s2),
    ensures
        cme_chain_ok(nob, a, n, ctrls, tlen, st, s1),
    decreases s2,
{
    if s1 < s2 {
        lemma_cme_ok_down(nob, a, n, ctrls, tlen, st, s1, (s2 - 1) as nat);
    }
}

proof fn lemma_fold_ok_prefix(gs: Seq<MatP>, j: int)
    requires
        mp_fold_ok(gs),
        1 <= j <= gs.len(),
    ensures
        mp_fold_ok(gs.take(j)),
    decreases gs.len(),
{
    if j < gs.len() {
        assert(gs.drop_last() == gs.take(gs.len() - 1));
        lemma_fold_ok_prefix(gs.drop_last(), j);
        assert(gs.drop_last().take(j) =~= gs.take(j));
    } else {
        assert(gs.take(j) =~= gs);
    }
}

/// The expansion of a one-qubit gate over `nob` positions is a
/// `2^nob`-dimensional matrix.
proof fn lemma_fold_pos_len(gp: MatP, nob: nat, qb: Seq<u32>)
    requires
        nob >= 1,
        gp.e.len() == 2,
    ensures
        mp_fold(pos_gates(gp, nob, qb)).e.len() == pow2(nob),
    decreases nob,
{
    let gs = pos_gates(gp, nob, qb);
    if nob == 1 {
        assert(pow2(1) == 2) by {
            lemma2_to64();
        }
        assert(mp_fold(gs) == gs[0]);
    } else {
        assert(gs.drop_last() =~= pos_gates(gp, (nob - 1) as nat, qb));
        lemma_fold_pos_len(gp, (nob - 1) as nat, qb);
        lemma_pow2_unfold(nob);
        assert(mp_fold(gs) == mp_tensor(mp_fold(gs.drop_last()), gs.last()));
        assert(gs.last().e.len() == 2);
        assert(mp_fold(gs).e.len() == pow2((nob - 1) as nat) * 2);
    }
}

/// A fresh gate with the same entries and denominator exponent.
fn clone_gate(g: &Gate) -> (r: Gate)
    requires
        gate_wf(*g),
    ensures
        gate_wf(r),
        gv(r) == gv(*g),
        r.m@.len() == g.m@.len(),
        r.k == g.k,
{
    let n = g.m.len();
    let mut m: Vec<Vec<Quad>> = Vec::new();
    let mut i: usize = 0;
    while i < n
        invariant
            i <= n,
            n == g.m@.len(),
            gate_wf(*g),
            m@.len() == i,
            forall|r0: int| 0 <= r0 < i ==> (#[trigger] crate::matrix::ent_row(m@[r0]@)) =~= ent(
                *g,
            )[r0],
        decreases n - i,
    {
        proof {
            assert(ent(*g)[i as int].len() == n);
            assert(g.m@[i as int]@.len() == n);
        }
        let mut row: Vec<Quad> = Vec::new();
        let mut j: usize = 0;
        while j < n
            invariant
                j <= n,
                i < n,
                n == g.m@.len(),
                gate_wf(*g),
                g.m@[i as int]@.len() == n,
                row@.len() == j,
                forall|c: int| 0 <= c < j ==> crate::matrix::ent_row(row@)[c] == ent(
                    *g,
                )[i as int][c],
            decreases n - j,
        {
            let ghost prev = row@;
            let q = g.m[i][j];
            row.push(q);
            proof {
                assert forall|c: int| 0 <= c < j + 1 implies crate::matrix::ent_row(row@)[c]
                    == ent(*g)[i as int][c] by {
                    if c < j {
                        assert(row@[c] == prev[c]);
                        assert(crate::matrix::ent_row(prev)[c] == ent(*g)[i as int][c]);
                    } else {
                        assert(crate::matrix::ent_row(row@)[c] == row@[c]@);
                        assert(ent(*g)[i as int][j as int] == g.m@[i as int]@[j as int]@);
                    }
                }
            }
            j += 1;
        }
        m.push(row);
        i += 1;
    }
    let r = Gate { m, k: g.k };
    proof {
        assert(ent(r) =~= ent(*g)) by {
            assert forall|r0: int| 0 <= r0 < n implies ent(r)[r0] =~= ent(*g)[r0] by {
                assert(ent(r)[r0] == crate::matrix::ent_row(r.m@[r0]@));
            }
        }
    }
    r
}

/// One gate per register position: a copy of `g` on listed positions and
/// the one-qubit identity elsewhere.
fn gate_list(nob: u32, g: &Gate, qb: &[u32]) -> (list: Vec<Gate>)
    requires
        nob >= 1,
        nob <= 28,
        gate_wf(*g),
        g.m@.len() == 2,
    ensures
        list@.len() == nob,
        forall|i: int| 0 <= i < nob ==> gate_wf(#[trigger] list@[i]) && gv(list@[i]) == (if listed(
            qb@,
            i,
        ) {
            gv(*g)
        } else {
            mp_id2()
        }),
{
    let mut list: Vec<Gate> = Vec::new();
    let mut i: u32 = 0;
    while i < nob
        invariant
            i <= nob,
            nob <= 28,
            gate_wf(*g),
            g.m@.len() == 2,
            list@.len() == i,
            forall|l: int| 0 <= l < i ==> gate_wf(#[trigger] list@[l]) && gv(list@[l]) == (
            if listed(qb@, l) {
                gv(*g)
            } else {
                mp_id2()
            }),
        decreases nob - i,
    {
        let mut found = false;
        let mut j: usize = 0;
        let qlen = qb.len();
        while j < qlen
            invariant
                j <= qlen,
                qlen == qb@.len(),
                found == exists|l: int| 0 <= l < j && qb@[l] == i as int,
            decreases qlen - j,
        {
            if qb[j] == i {
                found = true;
            }
            j += 1;
        }
        proof {
            assert(found == listed(qb@, i as int));
        }
        let ghost prev = list@;
        if found {
            list.push(clone_gate(g));
        } else {
            let one = crate::matrix::id_with(1);
            proof {
                assert(pow2(1) == 2) by {
                    lemma2_to64();
                }
            }
            list.push(one);
        }
        proof {
            assert forall|l: int| 0 <= l < i + 1 implies gate_wf(#[trigger] list@[l]) && gv(
                list@[l],
            ) == (if listed(qb@, l) {
                gv(*g)
            } else {
                mp_id2()
            }) by {
                if l < i {
                    assert(list@[l] == prev[l]);
                }
            }
        }
        i += 1;
    }
    list
}

/// Folds a non-empty gate list under the tensor product, left to right;
/// nothing when an intermediate product would not be representable.
fn tensor_with(list: &Vec<Gate>) -> (r: Option<Gate>)
    requires
        list@.len() >= 1,
        forall|i: int| 0 <= i < list@.len() ==> gate_wf(#[trigger] list@[i]),
    ensures
        r is Some <==> mp_fold_ok(gates_v(list@)),
        match r {
            Some(g) => gate_wf(g) && gv(g) == mp_fold(gates_v(list@)),
            None => true,
        },
{
    let ghost gs = gates_v(list@);
    let len = list.len();
    let mut acc = clone_gate(&list[0]);
    proof {
        assert(gs.take(1) =~= seq![gs[0]]);
        assert(mp_fold(gs.take(1)) == gs[0]);
        assert(mp_fold_ok(gs.take(1)));
    }
    let mut i: usize = 1;
    while i < len
        invariant
            1 <= i <= len,
            len == list@.len(),
            gs == gates_v(list@),
            forall|l: int| 0 <= l < list@.len() ==> gate_wf(#[trigger] list@[l]),
            gate_wf(acc),
            gv(acc) == mp_fold(gs.take(i as int)),
            mp_fold_ok(gs.take(i as int)),
        decreases len - i,
    {
        let nx = tensor(&acc, &list[i]);
        proof {
            assert(gs.take(i + 1).drop_last() =~= gs.take(i as int));
            assert(gs.take(i + 1).last() == gv(list@[i as int]));
        }
        match nx {
            Some(g2) => {
                proof {
                    assert(gv(g2) == mp_tensor(mp_fold(gs.take(i as int)), gv(list@[i as int])));
                    assert(gv(g2) == mp_fold(gs.take(i + 1)));
                    assert(mp_fold_ok(gs.take(i + 1)));
                }
                acc = g2;
            },
            None => {
                proof {
                    assert(!tensor_ok(mp_fold(gs.take(i as int)), gv(list@[i as int])));
                    assert(!mp_fold_ok(gs.take(i + 1)));
                    if mp_fold_ok(gs) {
                        lemma_fold_ok_prefix(gs, i + 1);
                    }
                }
                return None;
            },
        }
        i += 1;
    }
    proof {
        assert(gs.take(len as int) =~= gs);
    }
    Some(acc)
}

/// Character of bit `k` (most-significant-first) of a basis index of a
/// register `nob` qubits wide.
pub open spec fn bit_char(i: nat, nob: nat, k: int) -> char {
    if (i / pow2((nob - 1 - k) as nat)) % 2 == 1 {
        '1'
    } else {
        '0'
    }
}

/// Binary digits of a basis index, zero-padded to the register width,
/// most significant bit first.
pub fn to_binary_chars(i: usize, nob: usize) -> (r: Vec<char>)
    requires
        1 <= nob <= 28,
        i < pow2(nob as nat),
    ensures
        r@.len() == nob,
        forall|k: int| 0 <= k < nob ==> r@[k] == bit_char(i as nat, nob as nat, k),
{
    proof {
        assert(pow2(0) == 1) by {
            lemma2_to64();
        }
    }
    let mut low: Vec<char> = Vec::new();
    let mut x = i;
    let mut j: usize = 0;
    while j < nob
        invariant
            j <= nob <= 28,
            x == i as nat / pow2(j as nat),
            low@.len() == j,
            forall|l: int| 0 <= l < j ==> low@[l] == (if (i as nat / pow2(l as nat)) % 2 == 1 {
                '1'
            } else {
                '0'
            }),
        decreases nob - j,
    {
        proof {
            lemma_pow2_unfold((j + 1) as nat);
            vstd::arithmetic::power2::lemma_pow2_pos(j as nat);
            vstd::arithmetic::div_mod::lemma_div_denominator(i as int, pow2(j as nat) as int, 2);
        }
        if x % 2 == 1 {
            low.push('1');
        } else {
            low.push('0');
        }
        x = x / 2;
        j += 1;
    }
    let mut r: Vec<char> = Vec::new();
    let mut k: usize = 0;
    while k < nob
        invariant
            k <= nob,
            low@.len() == nob >= 1,
            forall|l: int| 0 <= l < nob ==> low@[l] == (if (i as nat / pow2(l as nat)) % 2 == 1 {
                '1'
            } else {
                '0'
            }),
            r@.len() == k,
            forall|l: int| 0 <= l < k ==> r@[l] == bit_char(i as nat, nob as nat, l),
        decreases nob - k,
    {
        r.push(low[nob - 1 - k]);
        k += 1;
    }
    r
}

/// Basis-state report: one basis index with a non-zero amplitude.
pub struct State {
    pub number_of_bit: u32,
    pub index: usize,
    pub amp: Amp,
}

impl State {
    /// The joint outcome of the listed qubit positions within this basis
    /// index, as binary characters.
    pub fn to_binary_chars(&self, qb: &[u32]) -> (r: Vec<char>)
        requires
            1 <= self.number_of_bit <= 28,
            self.index < pow2(self.number_of_bit as nat),
            forall|l: int| 0 <= l < qb@.len() ==> #[trigger] qb@[l] < self.number_of_bit,
        ensures
            r@.len() == qb@.len(),
            forall|l: int| 0 <= l < qb@.len() ==> r@[l] == bit_char(
                self.index as nat,
                self.number_of_bit as nat,
                qb@[l] as int,
            ),
    {
        let v = to_binary_chars(self.index, self.number_of_bit as usize);
        let mut bin: Vec<char> = Vec::new();
        let mut l: usize = 0;
        let qlen = qb.len();
        while l < qlen
            invariant
                l <= qlen,
                qlen == qb@.len(),
                v@.len() == self.number_of_bit,
                forall|t: int| 0 <= t < v@.len() ==> v@[t] == bit_char(
                    self.index as nat,
                    self.number_of_bit as nat,
                    t,
                ),
                forall|t: int| 0 <= t < qb@.len() ==> #[trigger] qb@[t] < self.number_of_bit,
                bin@.len() == l,
                forall|t: int| 0 <= t < l ==> bin@[t] == bit_char(
                    self.index as nat,
                    self.number_of_bit as nat,
                    qb@[t] as int,
                ),
            decreases qlen - l,
        {
            bin.push(v[qb[l] as usize]);
            l += 1;
        }
        bin
    }
}

/// The quantum register: `2^n` amplitudes over the denominator `2^k`.
pub struct Q {
    pub qb: Vec<Quad>,
    pub k: u32,
}

/// Amplitudes of the register as ghost values.
pub open spec fn q_amps(q: Q) -> Seq<CQ> {
    qview(q.qb@)
}

/// Denominator exponent of the register.
pub open spec fn q_scale(q: Q) -> nat {
    q.k as nat
}

/// Well-formed register: bounded amplitudes, and a power-of-two length
/// within the dimension cap (or no qubits yet).
pub open spec fn q_wf(q: Q) -> bool {
    &&& q.qb@.len() <= dim_cap()
    &&& vec_bounded(q_amps(q), coeff_limit())
    &&& (q.qb@.len() == 0 || q.qb@.len() == pow2(lg(q.qb@.len())))
    &&& (q.qb@.len() == 0 ==> q.k == 0)
}

/// Success condition for appending one qubit: the doubled register still
/// fits, the denominators combine, and the products stay bounded.
pub open spec fn add_ok(q: Q, x0: CQ, x1: CQ, xk: nat) -> bool {
    if q.qb@.len() == 0 {
        true
    } else {
        &&& q.qb@.len() * 2 <= dim_cap()
        &&& q_scale(q) + xk <= 0xffff_ffff
        &&& vec_bounded(qb_tensor(q_amps(q), x0, x1), coeff_limit())
    }
}

impl Q {
    /// A register with no qubits.
    pub fn new() -> (q: Q)
        ensures
            q_wf(q),
            q_amps(q).len() == 0,
            q_scale(q) == 0,
    {
        Q { qb: Vec::new(), k: 0 }
    }

    /// Number of allocated qubits: the base-two logarithm of the state
    /// vector length.
    pub fn number_of_bit(&self) -> (r: u32)
        requires
            q_wf(*self),
            q_amps(*self).len() >= 1,
        ensures
            r == lg(q_amps(*self).len()),
            pow2(r as nat) == q_amps(*self).len(),
            r <= 28,
    {
        let len = self.qb.len();
        proof {
            assert(pow2(0) == 1) by {
                lemma2_to64();
            }
            assert(len == pow2(lg(len as nat)));
            assert(lg(len as nat) <= 28) by {
                if lg(len as nat) > 28 {
                    lemma_pow2_strictly_increases(28, lg(len as nat));
                    lemma2_to64();
                }
            }
        }
        let mut s: usize = 1;
        let mut c: u32 = 0;
        while s < len
            invariant
                s == pow2(c as nat),
                s >= 1,
                s <= len,
                len == pow2(lg(len as nat)),
                lg(len as nat) <= 28,
                c <= lg(len as nat),
            decreases len - s,
        {
            proof {
                let m = lg(len as nat);
                assert(c < m) by {
                    if c >= m {
                        if c > m {
                            lemma_pow2_strictly_increases(m, c as nat);
                        }
                    }
                }
                lemma_pow2_unfold((c + 1) as nat);
                if c + 1 < m {
                    lemma_pow2_strictly_increases((c + 1) as nat, m);
                }
            }
            s = s * 2;
            c += 1;
        }
        proof {
            assert(s == len) by {
                let m = lg(len as nat);
                if c < m {
                    lemma_pow2_strictly_increases(c as nat, m);
                }
            }
            lemma_lg_pow2(c as nat);
        }
        c
    }

    /// Appends one qubit by tensoring it against the existing state (or
    /// adopting it as the initial state) and returns its position in
    /// allocation order; nothing when the grown register would not fit.
    pub fn add(&mut self, qb: Qubit) -> (r: Option<u32>)
        requires
            q_wf(*old(self)),
            qubit_wf(qb),
        ensures
            r is Some <==> add_ok(*old(self), qb.a0@, qb.a1@, qb.k as nat),
            match r {
                Some(h) => {
                    &&& q_wf(*final(self))
                    &&& q_amps(*final(self)) == (if q_amps(*old(self)).len() == 0 {
                        seq![qb.a0@, qb.a1@]
                    } else {
                        qb_tensor(q_amps(*old(self)), qb.a0@, qb.a1@)
                    })
                    &&& q_scale(*final(self)) == q_scale(*old(self)) + qb.k
                    &&& pow2((h + 1) as nat) == q_amps(*final(self)).len()
                    &&& h == lg(q_amps(*final(self)).len()) - 1
                    &&& h <= 27
                },
                None => *final(self) == *old(self),
            },
    {
        if self.qb.len() == 0 {
            let mut v: Vec<Quad> = Vec::new();
            v.push(qb.a0);
            v.push(qb.a1);
            self.qb = v;
            self.k = qb.k;
            proof {
                assert(q_amps(*self) =~= seq![qb.a0@, qb.a1@]);
                lemma2_to64();
                lemma_lg_pow2(1);
                assert(q_amps(*self).len() == pow2(1));
                assert(q_amps(*self)[0] == qb.a0@);
                assert(q_amps(*self)[1] == qb.a1@);
                assert(vec_bounded(q_amps(*self), coeff_limit()));
            }
            return Some(0);
        }
        let len = self.qb.len();
        proof {
            assert((len as int) * 2 <= 0x8000_0000_0000_0000) by (nonlinear_arith)
                requires
                    len <= 0x1000_0000,
            ;
        }
        if len > 0x1000_0000 / 2 {
            proof {
                assert(!add_ok(*old(self), qb.a0@, qb.a1@, qb.k as nat));
            }
            return None;
        }
        if self.k > 0xffff_ffffu32 - qb.k {
            proof {
                assert(!add_ok(*old(self), qb.a0@, qb.a1@, qb.k as nat));
            }
            return None;
        }
        let ghost tv = qb_tensor(q_amps(*old(self)), qb.a0@, qb.a1@);
        let mut v: Vec<Quad> = Vec::new();
        let mut i: usize = 0;
        proof {
            assert forall|u: int, w: int|
                -0x8000_0000 <= u <= 0x8000_0000 && -0x8000_0000 <= w
                    <= 0x8000_0000 implies -0x4000_0000_0000_0000 <= #[trigger] (u * w)
                <= 0x4000_0000_0000_0000 by {
                assert(u * w <= 0x4000_0000_0000_0000 && -0x4000_0000_0000_0000 <= u * w) by (
                nonlinear_arith)
                    requires
                        -0x8000_0000 <= u <= 0x8000_0000,
                        -0x8000_0000 <= w <= 0x8000_0000,
                ;
            }
        }
        while i < len
            invariant
                i <= len,
                len == self.qb@.len(),
                self == old(self),
                q_wf(*old(self)),
                qubit_wf(qb),
                tv == qb_tensor(q_amps(*old(self)), qb.a0@, qb.a1@),
                tv.len() == len * 2,
                v@.len() == 2 * i,
                forall|u: int, w: int|
                    -0x8000_0000 <= u <= 0x8000_0000 && -0x8000_0000 <= w
                        <= 0x8000_0000 ==> -0x4000_0000_0000_0000 <= #[trigger] (u * w)
                        <= 0x4000_0000_0000_0000,
                forall|l: int| 0 <= l < 2 * i ==> #[trigger] qview(v@)[l] == tv[l] && cq_bounded(
                    qview(v@)[l],
                    coeff_limit(),
                ),
            decreases len - i,
    {
            let x = &self.qb[i];
            proof {
                assert(x@ == q_amps(*old(self))[i as int]);
                assert(cq_bounded(x@, coeff_limit()));
            }
            let xa = x.a as i128;
            let xb = x.b as i128;
            let xc = x.c as i128;
            let xd = x.d as i128;
            let mut half: usize = 0;
            while half < 2
                invariant
                    half <= 2,
                    i < len,
                    len == self.qb@.len(),
                    self == old(self),
                    q_wf(*old(self)),
                    qubit_wf(qb),
                    tv == qb_tensor(q_amps(*old(self)), qb.a0@, qb.a1@),
                    tv.len() == len * 2,
                    xa == q_amps(*old(self))[i as int].a,
                    xb == q_amps(*old(self))[i as int].b,
                    xc == q_amps(*old(self))[i as int].c,
                    xd == q_amps(*old(self))[i as int].d,
                    v@.len() == 2 * i + half,
                    forall|u: int, w: int|
                        -0x8000_0000 <= u <= 0x8000_0000 && -0x8000_0000 <= w
                            <= 0x8000_0000 ==> -0x4000_0000_0000_0000 <= #[trigger] (u * w)
                            <= 0x4000_0000_0000_0000,
                    forall|l: int| 0 <= l < 2 * i + half ==> #[trigger] qview(v@)[l] == tv[l]
                        && cq_bounded(qview(v@)[l], coeff_limit()),
                decreases 2 - half,
            {
                let y = if half == 0 {
                    &qb.a0
                } else {
                    &qb.a1
                };
                proof {
                    assert(cq_bounded(y@, coeff_limit()));
                }
                let ya = y.a as i128;
                let yb = y.b as i128;
                let yc = y.c as i128;
                let yd = y.d as i128;
                let pa: i128 = xa * ya - xb * yd - xc * yc - xd * yb;
                let pb: i128 = xa * yb + xb * ya - xc * yd - xd * yc;
                let pc: i128 = xa * yc + xb * yb + xc * ya - xd * yd;
                let pd: i128 = xa * yd + xb * yc + xc * yb + xd * ya;
                proof {
                    let l = 2 * (i as int) + half;
                    assert(l % 2 == half && l / 2 == i as int) by (nonlinear_arith)
                        requires
                            l == 2 * (i as int) + half,
                            0 <= half < 2,
                            0 <= i as int,
                    ;
                    assert(tv[l] == cq_mul(q_amps(*old(self))[i as int], y@));
                    assert((CQ { a: pa as int, b: pb as int, c: pc as int, d: pd as int })
                        == tv[l]);
                }
                if pa > 0x8000_0000 || pa < -0x8000_0000 || pb > 0x8000_0000 || pb < -0x8000_0000
                    || pc > 0x8000_0000 || pc < -0x8000_0000 || pd > 0x8000_0000 || pd
                    < -0x8000_0000 {
                    proof {
                        assert(!cq_bounded(tv[2 * (i as int) + half], coeff_limit()));
                        assert(!vec_bounded(tv, coeff_limit()));
                    }
                    return None;
                }
                let ghost prev = v@;
                v.push(Quad { a: pa as i64, b: pb as i64, c: pc as i64, d: pd as i64 });
                proof {
                    assert forall|l: int| 0 <= l < prev.len() + 1 implies #[trigger] qview(
                        v@,
                    )[l] == tv[l] && cq_bounded(qview(v@)[l], coeff_limit()) by {
                        if l < prev.len() {
                            assert(v@[l] == prev[l]);
                            assert(qview(prev)[l] == tv[l]);
                            assert(cq_bounded(qview(prev)[l], coeff_limit()));
                        } else {
                            assert(qview(v@)[l] == v@[l]@);
                        }
                    }
                }
                half += 1;
            }
            i += 1;
        }
        self.qb = v;
        self.k = self.k + qb.k;
        proof {
            assert(q_amps(*self) =~= tv);
            let m = lg(q_amps(*old(self)).len());
            lemma_pow2_unfold((m + 1) as nat);
            assert(q_amps(*self).len() == pow2((m + 1) as nat));
            lemma_lg_pow2((m + 1) as nat);
            assert(q_wf(*self)) by {
                assert forall|l: int| 0 <= l < q_amps(*self).len() implies cq_bounded(
                    #[trigger] q_amps(*self)[l],
                    coeff_limit(),
                ) by {
                    assert(q_amps(*self)[l] == qview(v@)[l]);
                }
            }
        }
        let nob = self.number_of_bit_after();
        Some(nob - 1)
    }

    /// Appends one zero-initialised qubit and returns its position in
    /// allocation order.
    pub fn zero(&mut self) -> (r: u32)
        requires
            q_wf(*old(self)),
            old(self).qb@.len() * 2 <= dim_cap(),
        ensures
            q_wf(*final(self)),
            q_amps(*final(self)) == grow_zero(q_amps(*old(self))),
            q_scale(*final(self)) == q_scale(*old(self)),
            pow2((r + 1) as nat) == q_amps(*final(self)).len(),
            r == lg(q_amps(*final(self)).len()) - 1,
            r <= 27,
    {
        let qb = Qubit::ground();
        proof {
            let st = q_amps(*self);
            if st.len() > 0 {
                let tv = qb_tensor(st, cq_one(), cq_zero());
                assert forall|i: int| 0 <= i < tv.len() implies cq_bounded(
                    #[trigger] tv[i],
                    coeff_limit(),
                ) by {
                    assert(0 <= i / 2 < st.len());
                    assert(cq_bounded(st[i / 2], coeff_limit()));
                    if i % 2 == 0 {
                        assert(cq_mul(st[i / 2], cq_one()) == st[i / 2]);
                    } else {
                        assert(cq_mul(st[i / 2], cq_zero()) == cq_zero());
                    }
                }
                assert(add_ok(*self, cq_one(), cq_zero(), 0));
            }
        }
        let r = self.add(qb);
        match r {
            Some(h) => h,
            None => {
                proof {
                    assert(false);
                }
                0
            },
        }
    }

    /// Appends `n` zero-initialised qubits and returns their positions in
    /// allocation order.
    pub fn zeros(&mut self, n: u32) -> (r: Vec<u32>)
        requires
            q_wf(*old(self)),
            grow_len(old(self).qb@.len(), n as nat) <= dim_cap(),
        ensures
            q_wf(*final(self)),
            q_amps(*final(self)) == grow_zeros(q_amps(*old(self)), n as nat),
            q_scale(*final(self)) == q_scale(*old(self)),
            r@.len() == n,
            forall|i: int| 0 <= i < n ==> pow2((#[trigger] r@[i] + 1) as nat) == grow_zeros(
                q_amps(*old(self)),
                (i + 1) as nat,
            ).len(),
    {
        let mut list: Vec<u32> = Vec::new();
        let mut i: u32 = 0;
        while i < n
            invariant
                i <= n,
                q_wf(*self),
                q_wf(*old(self)),
                grow_len(old(self).qb@.len(), n as nat) <= dim_cap(),
                q_amps(*self) == grow_zeros(q_amps(*old(self)), i as nat),
                q_scale(*self) == q_scale(*old(self)),
                list@.len() == i,
                forall|l: int| 0 <= l < i ==> pow2((#[trigger] list@[l] + 1) as nat)
                    == grow_zeros(q_amps(*old(self)), (l + 1) as nat).len(),
            decreases n - i,
        {
            proof {
                lemma_grow_zeros_len(q_amps(*old(self)), i as nat);
                lemma_grow_zeros_len(q_amps(*old(self)), (i + 1) as nat);
                lemma_grow_len_mono(old(self).qb@.len(), (i + 1) as nat, n as nat);
                assert(self.qb@.len() * 2 <= dim_cap()) by {
                    assert(grow_len(old(self).qb@.len(), (i + 1) as nat) <= dim_cap());
                }
            }
            let h = self.zero();
            let ghost prev = list@;
            list.push(h);
            proof {
                assert forall|l: int| 0 <= l < i + 1 implies pow2((#[trigger] list@[l] + 1) as nat)
                    == grow_zeros(q_amps(*old(self)), (l + 1) as nat).len() by {
                    if l < i {
                        assert(list@[l] == prev[l]);
                    }
                }
            }
            i += 1;
        }
        list
    }

    /// Allocates enough zero qubits to hold any value in `[0, n)`:
    /// `floor(log2(n)) + 1` of them.
    pub fn zero_log2(&mut self, n: u32) -> (r: Vec<u32>)
        requires
            q_wf(*old(self)),
            n >= 1,
            grow_len(old(self).qb@.len(), crate::number::bitlen(n as nat)) <= dim_cap(),
        ensures
            q_wf(*final(self)),
            q_amps(*final(self)) == grow_zeros(
                q_amps(*old(self)),
                crate::number::bitlen(n as nat),
            ),
            q_scale(*final(self)) == q_scale(*old(self)),
            r@.len() == crate::number::bitlen(n as nat),
            forall|i: int| 0 <= i < r@.len() ==> pow2((#[trigger] r@[i] + 1) as nat) == grow_zeros(
                q_amps(*old(self)),
                (i + 1) as nat,
            ).len(),
    {
        let log2n = crate::number::bitlen_exec(n);
        self.zeros(log2n)
    }

    /// Applies an already register-width gate to the state vector;
    /// nothing when an amplitude of the new state would not fit, in which
    /// case the register is unchanged.
    pub fn apply(&mut self, g: Gate) -> (r: Option<()>)
        requires
            q_wf(*old(self)),
            gate_wf(g),
            g.m@.len() == q_amps(*old(self)).len(),
        ensures
            r is Some <==> (vec_mul_ok(ent(g), q_amps(*old(self))) && q_scale(*old(self)) + g.k
                <= 0xffff_ffff),
            match r {
                Some(_) => {
                    &&& q_wf(*final(self))
                    &&& q_amps(*final(self)) == sm_vec(ent(g), q_amps(*old(self)))
                    &&& q_scale(*final(self)) == q_scale(*old(self)) + g.k
                },
                None => *final(self) == *old(self),
            },
    {
        if self.k > 0xffff_ffffu32 - g.k {
            return None;
        }
        let w = vec_mul(&g, &self.qb);
        match w {
            Some(nv) => {
                self.qb = nv;
                self.k = self.k + g.k;
                proof {
                    assert(q_wf(*self));
                }
                Some(())
            },
            None => None,
        }
    }

    /// Applies the bit-flip gate X to the listed qubit positions: it is
    /// expanded to register width by tensoring, position by position in
    /// allocation order, X for listed positions and the identity
    /// elsewhere.
    pub fn x(&mut self, qb: &[u32]) -> (r: Option<()>)
        requires
            q_wf(*old(self)),
            q_amps(*old(self)).len() >= 2,
        ensures
            r is Some <==> apply_with_ok(
                mp_x(),
                lg(q_amps(*old(self)).len()),
                qb@,
                q_amps(*old(self)),
                q_scale(*old(self)),
            ),
            match r {
                Some(_) => {
                    &&& q_wf(*final(self))
                    &&& q_amps(*final(self)) == sm_vec(
                        mp_fold(pos_gates(mp_x(), lg(q_amps(*old(self)).len()), qb@)).e,
                        q_amps(*old(self)),
                    )
                    &&& q_scale(*final(self)) == q_scale(*old(self)) + mp_fold(
                        pos_gates(mp_x(), lg(q_amps(*old(self)).len()), qb@),
                    ).k
                },
                None => *final(self) == *old(self),
            },
    {
        let g = crate::matrix::x_gate();
        proof {
            assert(gv(g) == mp_x());
        }
        self.apply_with(g, qb)
    }

    /// Applies the Hadamard gate H to the listed qubit positions,
    /// expanded to register width in the same way as X.
    pub fn h(&mut self, qb: &[u32]) -> (r: Option<()>)
        requires
            q_wf(*old(self)),
            q_amps(*old(self)).len() >= 2,
        ensures
            r is Some <==> apply_with_ok(
                mp_h(),
                lg(q_amps(*old(self)).len()),
                qb@,
                q_amps(*old(self)),
                q_scale(*old(self)),
            ),
            match r {
                Some(_) => {
                    &&& q_wf(*final(self))
                    &&& q_amps(*final(self)) == sm_vec(
                        mp_fold(pos_gates(mp_h(), lg(q_amps(*old(self)).len()), qb@)).e,
                        q_amps(*old(self)),
                    )
                    &&& q_scale(*final(self)) == q_scale(*old(self)) + mp_fold(
                        pos_gates(mp_h(), lg(q_amps(*old(self)).len()), qb@),
                    ).k
                },
                None => *final(self) == *old(self),
            },
    {
        let g = crate::matrix::h_gate();
        proof {
            assert(gv(g) == mp_h());
        }
        self.apply_with(g, qb)
    }

    /// Applies a controlled phase rotation by `2*pi*m/8` between the two
    /// given qubit positions.
    pub fn cr(&mut self, m: u32, control: u32, target: u32) -> (r: Option<()>)
        requires
            q_wf(*old(self)),
            q_amps(*old(self)).len() >= 1,
            control < lg(q_amps(*old(self)).len()),
            target < lg(q_amps(*old(self)).len()),
        ensures
            r is Some <==> vec_mul_ok(
                crate::matrix::sm_cr(
                    lg(q_amps(*old(self)).len()),
                    m as nat,
                    control as nat,
                    target as nat,
                ),
                q_amps(*old(self)),
            ),
            match r {
                Some(_) => {
                    &&& q_wf(*final(self))
                    &&& q_amps(*final(self)) == sm_vec(
                        crate::matrix::sm_cr(
                            lg(q_amps(*old(self)).len()),
                            m as nat,
                            control as nat,
                            target as nat,
                        ),
                        q_amps(*old(self)),
                    )
                    &&& q_scale(*final(self)) == q_scale(*old(self))
                },
                None => *final(self) == *old(self),
            },
    {
        let nob = self.number_of_bit();
        let g = crate::matrix::cr_gate(m, nob, control, target);
        self.apply(g)
    }

    /// Expands a one-qubit gate to register width and applies it: the
    /// expansion tensors, in allocation order, a copy for positions in
    /// `qb` and the identity elsewhere.
    fn apply_with(&mut self, g: Gate, qb: &[u32]) -> (r: Option<()>)
        requires
            q_wf(*old(self)),
            q_amps(*old(self)).len() >= 2,
            gate_wf(g),
            g.m@.len() == 2,
        ensures
            r is Some <==> apply_with_ok(
                gv(g),
                lg(q_amps(*old(self)).len()),
                qb@,
                q_amps(*old(self)),
                q_scale(*old(self)),
            ),
            match r {
                Some(_) => {
                    &&& q_wf(*final(self))
                    &&& q_amps(*final(self)) == sm_vec(
                        mp_fold(pos_gates(gv(g), lg(q_amps(*old(self)).len()), qb@)).e,
                        q_amps(*old(self)),
                    )
                    &&& q_scale(*final(self)) == q_scale(*old(self)) + mp_fold(
                        pos_gates(gv(g), lg(q_amps(*old(self)).len()), qb@),
                    ).k
                },
                None => *final(self) == *old(self),
            },
    {
        let nob = self.number_of_bit();
        let ghost gs = pos_gates(gv(g), nob as nat, qb@);
        let list = gate_list(nob, &g, qb);
        proof {
            assert(gates_v(list@) =~= gs);
        }
        let big = tensor_with(&list);
        match big {
            Some(bg) => {
                proof {
                    lemma_fold_pos_len(gv(g), nob as nat, qb@);
                    assert(bg.m@.len() == q_amps(*self).len());
                }
                self.apply(bg)
            },
            None => None,
        }
    }

    /// Applies the controlled modular-exponentiation permutation once for
    /// each control qubit `r0[j]`, with exponent factor `a^(2^j) mod n`
    /// acting on the trailing target block of `r1.len()` qubits; nothing
    /// when an intermediate state would not fit, in which case the gates
    /// before the failing one remain applied.
    pub fn cmodexp2(&mut self, a: u32, n: u32, r0: &[u32], r1: &[u32]) -> (r: Option<()>)
        requires
            q_wf(*old(self)),
            q_amps(*old(self)).len() >= 1,
            1 <= n <= pow2(r1@.len()),
            r1@.len() <= lg(q_amps(*old(self)).len()),
            r0@.len() <= 0xffff_ffff,
            forall|i: int| 0 <= i < r0@.len() ==> #[trigger] r0@[i] < lg(q_amps(*old(self)).len()),
        ensures
            r is Some <==> cme_chain_ok(
                lg(q_amps(*old(self)).len()),
                a as nat,
                n as nat,
                r0@,
                r1@.len(),
                q_amps(*old(self)),
                r0@.len(),
            ),
            match r {
                Some(_) => {
                    &&& q_wf(*final(self))
                    &&& q_amps(*final(self)) == cme_chain(
                        lg(q_amps(*old(self)).len()),
                        a as nat,
                        n as nat,
                        r0@,
                        r1@.len(),
                        q_amps(*old(self)),
                        r0@.len(),
                    )
                    &&& q_scale(*final(self)) == q_scale(*old(self))
                },
                None => q_wf(*final(self)) && q_scale(*final(self)) == q_scale(*old(self))
                    && exists|s: int|
                    0 <= s < r0@.len() && q_amps(*final(self)) == #[trigger] cme_chain(
                        lg(q_amps(*old(self)).len()),
                        a as nat,
                        n as nat,
                        r0@,
                        r1@.len(),
                        q_amps(*old(self)),
                        s as nat,
                    ),
            },
    {
        let nob = self.number_of_bit();
        let len = r0.len();
        let ghost nobg = nob as nat;
        let ghost st0 = q_amps(*old(self));
        let mut i: usize = 0;
        while i < len
            invariant
                i <= len,
                len == r0@.len(),
                len <= 0xffff_ffff,
                nob as nat == nobg,
                nobg == lg(st0.len()),
                st0 == q_amps(*old(self)),
                q_wf(*old(self)),
                q_wf(*self),
                1 <= n <= pow2(r1@.len()),
                r1@.len() <= nobg,
                nobg <= 28,
                pow2(nobg) == st0.len(),
                forall|l: int| 0 <= l < r0@.len() ==> #[trigger] r0@[l] < nobg,
                q_amps(*self) == cme_chain(nobg, a as nat, n as nat, r0@, r1@.len(), st0, i as nat),
                q_amps(*self).len() == st0.len(),
                q_scale(*self) == q_scale(*old(self)),
                cme_chain_ok(nobg, a as nat, n as nat, r0@, r1@.len(), st0, i as nat),
            decreases len - i,
        {
            let g = crate::matrix::cmodexp2(nob, a, i as u32, n, r0[i], r1);
            let stepped = self.apply(g);
            match stepped {
                Some(_) => {
                    proof {
                        assert(q_amps(*self) == cme_chain(
                            nobg,
                            a as nat,
                            n as nat,
                            r0@,
                            r1@.len(),
                            st0,
                            (i + 1) as nat,
                        ));
                    }
                },
                None => {
                    proof {
                        assert(!cme_chain_ok(
                            nobg,
                            a as nat,
                            n as nat,
                            r0@,
                            r1@.len(),
                            st0,
                            (i + 1) as nat,
                        ));
                        if cme_chain_ok(nobg, a as nat, n as nat, r0@, r1@.len(), st0, len as nat) {
                            lemma_cme_ok_down(
                                nobg,
                                a as nat,
                                n as nat,
                                r0@,
                                r1@.len(),
                                st0,
                                (i + 1) as nat,
                                len as nat,
                            );
                        }
                    }
                    return None;
                },
            }
            i += 1;
        }
        Some(())
    }

    /// Inverse quantum Fourier transform over the given qubit positions:
    /// scanning the positions backward, each receives the inverse
    /// controlled rotations against all later positions and then a
    /// Hadamard. The rotation angles are eighth turns, which limits the
    /// pass to at most three positions.
    pub fn iqft(&mut self, qb: &[u32]) -> (r: Option<()>)
        requires
            q_wf(*old(self)),
            q_amps(*old(self)).len() >= 2,
            qb@.len() <= 3,
            forall|i: int| 0 <= i < qb@.len() ==> #[trigger] qb@[i] < lg(q_amps(*old(self)).len()),
        ensures
            r is Some <==> iqft_ok(
                lg(q_amps(*old(self)).len()),
                qb@,
                0,
                q_amps(*old(self)),
                q_scale(*old(self)),
            ),
            match r {
                Some(_) => {
                    &&& q_wf(*final(self))
                    &&& q_amps(*final(self)) == iqft_outer(
                        lg(q_amps(*old(self)).len()),
                        qb@,
                        0,
                        q_amps(*old(self)),
                    )
                    &&& q_scale(*final(self)) == q_scale(*old(self)) + iqft_k(
                        lg(q_amps(*old(self)).len()),
                        qb@,
                        0,
                    )
                },
                None => q_wf(*final(self)),
            },
    {
        let len = qb.len();
        let nob = self.number_of_bit();
        let ghost st0 = q_amps(*old(self));
        let ghost k0 = q_scale(*old(self));
        let ghost nobg = nob as nat;
        let mut i: usize = len;
        while i > 0
            invariant
                i <= len,
                len == qb@.len() <= 3,
                q_wf(*self),
                nob as nat == nobg,
                nobg == lg(st0.len()),
                pow2(nobg) == st0.len(),
                nobg <= 28,
                st0.len() >= 2,
                st0 == q_amps(*old(self)),
                k0 == q_scale(*old(self)),
                forall|l: int| 0 <= l < qb@.len() ==> #[trigger] qb@[l] < nobg,
                q_amps(*self) == iqft_outer(nobg, qb@, i as int, st0),
                q_amps(*self).len() == st0.len(),
                q_scale(*self) == k0 + iqft_k(nobg, qb@, i as int),
                iqft_ok(nobg, qb@, i as int, st0, k0),
            decreases i,
        {
            let i2 = i - 1;
            let ghost base = iqft_outer(nobg, qb@, i as int, st0);
            let mut j: usize = len;
            while j > i2 + 1
                invariant
                    i2 + 1 <= j <= len,
                    i2 < len,
                    i2 + 1 == i,
                    len == qb@.len() <= 3,
                    q_wf(*self),
                    nob as nat == nobg,
                    nobg == lg(st0.len()),
                    pow2(nobg) == st0.len(),
                    nobg <= 28,
                    st0.len() >= 2,
                    st0 == q_amps(*old(self)),
                    k0 == q_scale(*old(self)),
                    forall|l: int| 0 <= l < qb@.len() ==> #[trigger] qb@[l] < nobg,
                    base == iqft_outer(nobg, qb@, i as int, st0),
                    q_amps(*self) == iqft_inner(nobg, qb@, i2 as int, j as int, base),
                    q_amps(*self).len() == st0.len(),
                    q_scale(*self) == k0 + iqft_k(nobg, qb@, i as int),
                    iqft_inner_ok(nobg, qb@, i2 as int, j as int, base),
                    iqft_ok(nobg, qb@, i as int, st0, k0),
                decreases j,
            {
                let j2 = j - 1;
                let p = j2 - i2 + 1;
                let m: u32 = if p == 1 {
                    4
                } else if p == 2 {
                    6
                } else {
                    7
                };
                proof {
                    assert(m as nat == iqft_phase((j2 - i2 + 1) as nat));
                }
                let stepped = self.cr(m, qb[j2], qb[i2]);
                match stepped {
                    Some(_) => {
                        proof {
                            assert(q_amps(*self) == iqft_inner(
                                nobg,
                                qb@,
                                i2 as int,
                                j2 as int,
                                base,
                            ));
                            assert(iqft_inner_ok(nobg, qb@, i2 as int, j2 as int, base));
                        }
                    },
                    None => {
                        proof {
                            if iqft_ok(nobg, qb@, 0, st0, k0) {
                                lemma_iqft_ok_mono(nobg, qb@, 0, i2 as int, st0, k0);
                                assert(iqft_inner_ok(nobg, qb@, i2 as int, i2 as int + 1, base));
                                lemma_iqft_inner_ok_mono(
                                    nobg,
                                    qb@,
                                    i2 as int,
                                    i2 as int + 1,
                                    j2 as int,
                                    base,
                                );
                            }
                        }
                        return None;
                    },
                }
                j = j2;
            }
            let hpos = [qb[i2]];
            proof {
                assert(hpos@ =~= seq![qb@[i2 as int]]);
            }
            let hr = self.h(&hpos);
            match hr {
                Some(_) => {
                    proof {
                        assert(nobg >= 1) by {
                            if nobg == 0 {
                                assert(pow2(0) == 1) by {
                                    lemma2_to64();
                                }
                            }
                        }
                        lemma_fold_pos_len(mp_h(), nobg, seq![qb@[i2 as int]]);
                        assert(q_amps(*self) == iqft_outer(nobg, qb@, i2 as int, st0));
                        assert(q_scale(*self) == k0 + iqft_k(nobg, qb@, i2 as int));
                        assert(iqft_ok(nobg, qb@, i2 as int, st0, k0));
                    }
                },
                None => {
                    proof {
                        if iqft_ok(nobg, qb@, 0, st0, k0) {
                            lemma_iqft_ok_mono(nobg, qb@, 0, i2 as int, st0, k0);
                        }
                    }
                    return None;
                },
            }
            i = i2;
        }
        Some(())
    }

    /// Reports every basis index whose amplitude is not exactly zero, in
    /// increasing index order, each with its exact amplitude. The state
    /// vector is untouched: this is the full distribution, not a
    /// stochastic collapse.
    pub fn state(&self) -> (r: Vec<State>)
        requires
            q_wf(*self),
            q_amps(*self).len() >= 1,
        ensures
            forall|t: int| 0 <= t < r@.len() ==> {
                let s = #[trigger] r@[t];
                &&& s.index < q_amps(*self).len()
                &&& s.number_of_bit == lg(q_amps(*self).len())
                &&& s.amp.q@ == q_amps(*self)[s.index as int]
                &&& s.amp.k == self.k
                &&& s.amp.q@ != cq_zero()
            },
            forall|t1: int, t2: int| 0 <= t1 < t2 < r@.len() ==> r@[t1].index < r@[t2].index,
            forall|idx: int|
                0 <= idx < q_amps(*self).len() && q_amps(*self)[idx] != cq_zero() ==> exists|t: int|
                    0 <= t < r@.len() && (#[trigger] r@[t]).index == idx,
    {
        let nob = self.number_of_bit();
        let len = self.qb.len();
        let mut list: Vec<State> = Vec::new();
        let mut i: usize = 0;
        while i < len
            invariant
                i <= len,
                len == q_amps(*self).len(),
                q_wf(*self),
                nob == lg(q_amps(*self).len()),
                forall|t: int| 0 <= t < list@.len() ==> {
                    let s = #[trigger] list@[t];
                    &&& s.index < i
                    &&& s.number_of_bit == nob
                    &&& s.amp.q@ == q_amps(*self)[s.index as int]
                    &&& s.amp.k == self.k
                    &&& s.amp.q@ != cq_zero()
                },
                forall|t1: int, t2: int| 0 <= t1 < t2 < list@.len() ==> list@[t1].index
                    < list@[t2].index,
                forall|idx: int| 0 <= idx < i && q_amps(*self)[idx] != cq_zero() ==> exists|t: int|
                    0 <= t < list@.len() && (#[trigger] list@[t]).index == idx,
            decreases len - i,
        {
            let q = self.qb[i];
            proof {
                assert(q@ == q_amps(*self)[i as int]);
            }
            if !(q.a == 0 && q.b == 0 && q.c == 0 && q.d == 0) {
                let ghost prev = list@;
                list.push(State { number_of_bit: nob, index: i, amp: Amp { q, k: self.k } });
                proof {
                    assert(list@[prev.len() as int].index == i as int);
                    assert forall|idx: int|
                        0 <= idx < i + 1 && q_amps(*self)[idx] != cq_zero() implies exists|t: int|
                        0 <= t < list@.len() && (#[trigger] list@[t]).index == idx by {
                        if idx < i {
                            let t0 = choose|t: int|
                                0 <= t < prev.len() && (#[trigger] prev[t]).index == idx;
                            assert(list@[t0].index == idx);
                        } else {
                            assert(list@[prev.len() as int].index == idx);
                        }
                    }
                }
            } else {
                proof {
                    assert(q_amps(*self)[i as int] == cq_zero());
                }
            }
            i += 1;
        }
        list
    }

    /// Number of bits of the just-grown register, for use inside `add`.
    fn number_of_bit_after(&self) -> (r: u32)
        requires
            q_wf(*self),
            q_amps(*self).len() >= 2,
        ensures
            r == lg(q_amps(*self).len()),
            pow2(r as nat) == q_amps(*self).len(),
            1 <= r <= 28,
    {
        let r = self.number_of_bit();
        proof {
            if r == 0 {
                assert(pow2(0) == 1) by {
                    lemma2_to64();
                }
            }
        }
        r
    }
}

} // verus!
