//! Dense gate matrices over exact amplitudes: identity, bit-flip and
//! Hadamard constructors, tensor products, the conjugate transpose, and
//! matrix-vector application.

use vstd::prelude::*;
use vstd::arithmetic::power::pow;
use vstd::arithmetic::power2::{lemma2_to64, lemma_pow2_strictly_increases, pow2};
use crate::complex::{
    cq_add, cq_bounded, cq_conj, cq_mul, cq_neg, cq_one, cq_scale, cq_zero, coeff_limit, dy_eq,
    Quad, CQ,
};

verus! {

/// Ghost matrix together with its power-of-two denominator exponent: the
/// denoted matrix is `e / 2^k`.
pub ghost struct MatP {
    pub e: Seq<Seq<CQ>>,
    pub k: nat,
}

/// Every row is as long as the matrix is high.
pub open spec fn sm_square(e: Seq<Seq<CQ>>) -> bool {
    forall|i: int| 0 <= i < e.len() ==> (#[trigger] e[i]).len() == e.len()
}

/// Every entry has coefficients within `[-m, m]`.
pub open spec fn sm_bounded(e: Seq<Seq<CQ>>, m: int) -> bool {
    forall|i: int, j: int|
        0 <= i < e.len() && 0 <= j < e[i].len() ==> cq_bounded(#[trigger] e[i][j], m)
}

/// Identity matrix of size `n`.
pub open spec fn sm_id(n: nat) -> Seq<Seq<CQ>> {
    Seq::new(
        n,
        |i: int|
            Seq::new(
                n,
                |j: int|
                    if i == j {
                        cq_one()
                    } else {
                        cq_zero()
                    },
            ),
    )
}

/// Tensor product of two square matrices: the row and column indices of
/// the result interleave the operands' indices, the left operand in the
/// high positions.
pub open spec fn sm_tensor(x: Seq<Seq<CQ>>, y: Seq<Seq<CQ>>) -> Seq<Seq<CQ>> {
    let ny = y.len() as int;
    Seq::new(
        x.len() * y.len(),
        |r: int|
            Seq::new(
                x.len() * y.len(),
                |c: int| cq_mul(x[r / ny][c / ny], y[r % ny][c % ny]),
            ),
    )
}

pub open spec fn mp_tensor(x: MatP, y: MatP) -> MatP {
    MatP { e: sm_tensor(x.e, y.e), k: x.k + y.k }
}

/// Conjugate transpose.
pub open spec fn sm_dagger(e: Seq<Seq<CQ>>) -> Seq<Seq<CQ>> {
    Seq::new(e.len(), |i: int| Seq::new(e.len(), |j: int| cq_conj(e[j][i])))
}

/// Sum of the first `j` products `row[l] * v[l]`.
pub open spec fn dot_pre(row: Seq<CQ>, v: Seq<CQ>, j: nat) -> CQ
    decreases j,
{
    if j == 0 {
        cq_zero()
    } else {
        cq_add(dot_pre(row, v, (j - 1) as nat), cq_mul(row[j - 1], v[j - 1]))
    }
}

/// Matrix-vector product.
pub open spec fn sm_vec(e: Seq<Seq<CQ>>, v: Seq<CQ>) -> Seq<CQ> {
    Seq::new(e.len(), |i: int| dot_pre(e[i], v, v.len()))
}

/// Column `j` of a matrix.
pub open spec fn sm_col(e: Seq<Seq<CQ>>, j: int) -> Seq<CQ> {
    Seq::new(e.len(), |i: int| e[i][j])
}

/// Matrix product of square matrices of equal size.
pub open spec fn sm_mul(x: Seq<Seq<CQ>>, y: Seq<Seq<CQ>>) -> Seq<Seq<CQ>> {
    Seq::new(
        x.len(),
        |i: int| Seq::new(x.len(), |j: int| dot_pre(x[i], sm_col(y, j), y.len())),
    )
}

/// Two scaled matrices denote the same complex matrix.
pub open spec fn mp_eqv(x: MatP, y: MatP) -> bool {
    &&& x.e.len() == y.e.len()
    &&& forall|i: int, j: int|
        0 <= i < x.e.len() && 0 <= j < x.e.len() ==> dy_eq(
            #[trigger] x.e[i][j],
            x.k,
            #[trigger] y.e[i][j],
            y.k,
        )
}

/// A gate is unitary when its conjugate transpose composed with it is the
/// identity.
pub open spec fn mp_is_unitary(g: MatP) -> bool {
    &&& sm_square(g.e)
    &&& mp_eqv(
        MatP { e: sm_mul(sm_dagger(g.e), g.e), k: g.k + g.k },
        MatP { e: sm_id(g.e.len()), k: 0 },
    )
}

/// Largest matrix dimension the library constructs.
pub open spec fn dim_cap() -> int {
    0x1000_0000
}

/// A square dense gate matrix with entries `m[i][j] / 2^k`.
pub struct Gate {
    pub m: Vec<Vec<Quad>>,
    pub k: u32,
}

/// Entries of a gate as ghost values.
pub open spec fn ent(g: Gate) -> Seq<Seq<CQ>> {
    g.m@.map_values(|row: Vec<Quad>| row@.map_values(|q: Quad| q@))
}

/// Ghost view of a gate.
pub open spec fn gv(g: Gate) -> MatP {
    MatP { e: ent(g), k: g.k as nat }
}

/// Well-formed gate: square, entries bounded, dimension and denominator
/// exponent capped so that products can be accumulated exactly.
pub open spec fn gate_wf(g: Gate) -> bool {
    &&& 1 <= g.m@.len() <= dim_cap()
    &&& sm_square(ent(g))
    &&& sm_bounded(ent(g), coeff_limit())
    &&& g.k <= 0x1000_0000
}

/// View of a state vector's quadruples.
pub open spec fn qview(v: Seq<Quad>) -> Seq<CQ> {
    v.map_values(|q: Quad| q@)
}

/// All amplitudes of a vector have bounded coefficients.
pub open spec fn vec_bounded(v: Seq<CQ>, m: int) -> bool {
    forall|i: int| 0 <= i < v.len() ==> cq_bounded(#[trigger] v[i], m)
}

/// `2^e` as a machine size.
pub fn pow2_usize(e: u32) -> (r: usize)
    requires
        e <= 28,
    ensures
        r == pow2(e as nat),
        1 <= r <= 0x1000_0000,
{
    proof {
        lemma2_to64();
    }
    let mut r: usize = 1;
    let mut i: u32 = 0;
    while i < e
        invariant
            i <= e <= 28,
            r == pow2(i as nat),
            r <= 0x1000_0000,
        decreases e - i,
    {
        proof {
            vstd::arithmetic::power2::lemma_pow2_unfold((i + 1) as nat);
            assert(r <= 0x800_0000) by {
                lemma2_to64();
                if i < 27 {
                    lemma_pow2_strictly_increases(i as nat, 27);
                }
            }
        }
        r = r * 2;
        i += 1;
    }
    r
}

/// Identity gate on `nob` qubits.
pub fn id_with(nob: u32) -> (g: Gate)
    requires
        nob <= 28,
    ensures
        gate_wf(g),
        g.k == 0,
        ent(g) == sm_id(pow2(nob as nat)),
        g.m@.len() == pow2(nob as nat),
{
    let s = pow2_usize(nob);
    let mut m: Vec<Vec<Quad>> = Vec::new();
    let mut i: usize = 0;
    while i < s
        invariant
            i <= s,
            m@.len() == i,
            forall|r: int| 0 <= r < i ==> (#[trigger] ent_row(m@[r]@))
                =~= sm_id(s as nat)[r],
        decreases s - i,
    {
        let mut row: Vec<Quad> = Vec::new();
        let mut j: usize = 0;
        while j < s
            invariant
                j <= s,
                i < s,
                row@.len() == j,
                forall|c: int| 0 <= c < j ==> ent_row(row@)[c] == sm_id(s as nat)[i as int][c],
            decreases s - j,
        {
            let ghost prev = row@;
            if i == j {
                row.push(Quad { a: 1, b: 0, c: 0, d: 0 });
            } else {
                row.push(Quad { a: 0, b: 0, c: 0, d: 0 });
            }
            proof {
                assert(sm_id(s as nat)[i as int].len() == s);
                assert forall|c: int| 0 <= c < j + 1 implies ent_row(row@)[c] == sm_id(
                    s as nat,
                )[i as int][c] by {
                    if c < j {
                        assert(row@[c] == prev[c]);
                        assert(ent_row(prev)[c] == sm_id(s as nat)[i as int][c]);
                    } else {
                        assert(ent_row(row@)[j as int] == row@[j as int]@);
                    }
                }
            }
            j += 1;
        }
        m.push(row);
        i += 1;
    }
    let g = Gate { m, k: 0 };
    proof {
        assert(ent(g) =~= sm_id(s as nat)) by {
            assert forall|r: int| 0 <= r < s implies ent(g)[r] =~= sm_id(s as nat)[r] by {
                assert(ent(g)[r] == ent_row(g.m@[r]@));
            }
        }
    }
    g
}

/// Entries of one row.
pub open spec fn ent_row(row: Seq<Quad>) -> Seq<CQ> {
    row.map_values(|q: Quad| q@)
}

/// The bit-flip matrix.
pub open spec fn sm_x() -> Seq<Seq<CQ>> {
    seq![seq![cq_zero(), cq_one()], seq![cq_one(), cq_zero()]]
}

/// The Hadamard matrix numerator: every entry is `sqrt(2) = w - w^3`, the
/// lower right negated; it carries denominator exponent 1.
pub open spec fn sm_h() -> Seq<Seq<CQ>> {
    let s2 = CQ { a: 0, b: 1, c: 0, d: -1 };
    seq![seq![s2, s2], seq![s2, cq_neg(s2)]]
}

/// Bit-flip gate X: swaps the two basis amplitudes.
pub fn x_gate() -> (g: Gate)
    ensures
        gate_wf(g),
        g.k == 0,
        ent(g) == sm_x(),
        g.m@.len() == 2,
{
    let zero = Quad { a: 0, b: 0, c: 0, d: 0 };
    let one = Quad { a: 1, b: 0, c: 0, d: 0 };
    let mut m: Vec<Vec<Quad>> = Vec::new();
    let mut r0: Vec<Quad> = Vec::new();
    r0.push(zero);
    r0.push(one);
    let mut r1: Vec<Quad> = Vec::new();
    r1.push(one);
    r1.push(zero);
    m.push(r0);
    m.push(r1);
    let g = Gate { m, k: 0 };
    proof {
        assert(ent(g) =~= sm_x()) by {
            assert(ent(g)[0] =~= sm_x()[0]);
            assert(ent(g)[1] =~= sm_x()[1]);
        }
    }
    g
}

/// Hadamard gate H: entries `1/sqrt(2)`, with the sign flipped on the
/// lower-right entry, stored as `sqrt(2) / 2`.
pub fn h_gate() -> (g: Gate)
    ensures
        gate_wf(g),
        g.k == 1,
        ent(g) == sm_h(),
        g.m@.len() == 2,
{
    let s2 = Quad { a: 0, b: 1, c: 0, d: -1 };
    let n2 = Quad { a: 0, b: -1, c: 0, d: 1 };
    let mut m: Vec<Vec<Quad>> = Vec::new();
    let mut r0: Vec<Quad> = Vec::new();
    r0.push(s2);
    r0.push(s2);
    let mut r1: Vec<Quad> = Vec::new();
    r1.push(s2);
    r1.push(n2);
    m.push(r0);
    m.push(r1);
    let g = Gate { m, k: 1 };
    proof {
        assert(ent(g) =~= sm_h()) by {
            assert(ent(g)[0] =~= sm_h()[0]);
            assert(ent(g)[1] =~= sm_h()[1]);
        }
    }
    g
}

/// Bit `p` of index `i`, counted from the least significant position.
pub open spec fn bit_at(i: nat, p: nat) -> nat {
    (i / pow2(p)) % 2
}

/// Integer powers of the eighth root of unity `w`.
pub open spec fn omega_cq(m: nat) -> CQ {
    let r = m % 8;
    if r == 0 {
        cq_one()
    } else if r == 1 {
        CQ { a: 0, b: 1, c: 0, d: 0 }
    } else if r == 2 {
        CQ { a: 0, b: 0, c: 1, d: 0 }
    } else if r == 3 {
        CQ { a: 0, b: 0, c: 0, d: 1 }
    } else if r == 4 {
        CQ { a: -1, b: 0, c: 0, d: 0 }
    } else if r == 5 {
        CQ { a: 0, b: -1, c: 0, d: 0 }
    } else if r == 6 {
        CQ { a: 0, b: 0, c: -1, d: 0 }
    } else {
        CQ { a: 0, b: 0, c: 0, d: -1 }
    }
}

/// Controlled phase rotation: the identity except that diagonal entries
/// whose control and target bits are both set carry the phase `w^m`,
/// a rotation by `2*pi*m/8`. Qubit positions count from the most
/// significant bit.
pub open spec fn sm_cr(nob: nat, m: nat, control: nat, target: nat) -> Seq<Seq<CQ>> {
    Seq::new(
        pow2(nob),
        |r: int|
            Seq::new(
                pow2(nob),
                |c: int|
                    if r != c {
                        cq_zero()
                    } else if bit_at(r as nat, (nob - 1 - control) as nat) == 1 && bit_at(
                        r as nat,
                        (nob - 1 - target) as nat,
                    ) == 1 {
                        omega_cq(m)
                    } else {
                        cq_one()
                    },
            ),
    )
}

/// The value `modexp2` returns: `a^(2^j) mod n`, with the original's two
/// special cases.
pub open spec fn modexp2_spec(a: nat, j: nat, n: nat) -> nat {
    if a == 0 {
        0
    } else if j == 0 {
        a % n
    } else {
        (vstd::arithmetic::power::pow(a as int, pow2(j)) % (n as int)) as nat
    }
}

/// Index map of the controlled modular-exponentiation gate: an index
/// whose control bit is clear, or whose target block holds a value at or
/// above `n`, stays put; otherwise the target block `k` is replaced by
/// `a2j * k mod n`.
pub open spec fn cme_map(nob: nat, a2j: nat, n: nat, control: nat, tlen: nat, i: nat) -> nat {
    let kpart = i % pow2(tlen);
    if bit_at(i, (nob - 1 - control) as nat) != 1 || kpart >= n {
        i
    } else {
        ((i - kpart) + (a2j * kpart) % n) as nat
    }
}

/// The permutation matrix that carries column `c` to row `map(c)`.
pub open spec fn sm_cme(nob: nat, a2j: nat, n: nat, control: nat, tlen: nat) -> Seq<Seq<CQ>> {
    Seq::new(
        pow2(nob),
        |r: int|
            Seq::new(
                pow2(nob),
                |c: int|
                    if cme_map(nob, a2j, n, control, tlen, c as nat) == r {
                        cq_one()
                    } else {
                        cq_zero()
                    },
            ),
    )
}

/// Modular exponentiation preserves coprimality: the exponent factor of
/// every controlled modular-exponentiation gate is coprime to `n`
/// whenever the base is.
pub proof fn lemma_modexp2_coprime(a: nat, j: nat, n: nat)
    requires
        n >= 1,
        crate::number::gcd_spec(a, n) == 1,
    ensures
        crate::number::gcd_spec(modexp2_spec(a, j, n), n) == 1,
    decreases j,
{
    if a == 0 {
        vstd::arithmetic::div_mod::lemma_small_mod(0, n);
        assert(crate::number::gcd_spec(a, n) == crate::number::gcd_spec(n, 0));
        assert(n == 1);
        vstd::arithmetic::div_mod::lemma_small_mod(0, 1);
    } else if j == 0 {
        crate::number::lemma_gcd_comm((a % n) as nat, n);
        assert(crate::number::gcd_spec(a, n) == crate::number::gcd_spec(n, a % n));
    } else {
        lemma_modexp2_coprime(a, (j - 1) as nat, n);
        let x = modexp2_spec(a, (j - 1) as nat, n);
        assert(modexp2_spec(a, j, n) == (x * x) % n) by {
            vstd::arithmetic::power2::lemma_pow2_unfold(j);
            vstd::arithmetic::power::lemma_pow_adds(
                a as int,
                pow2((j - 1) as nat),
                pow2((j - 1) as nat),
            );
            if j == 1 {
                assert(pow2(0) == 1) by {
                    lemma2_to64();
                }
                assert(pow(a as int, 1) == a) by {
                    reveal_with_fuel(pow, 2);
                }
                vstd::arithmetic::div_mod::lemma_mul_mod_noop(a as int, a as int, n as int);
            } else {
                vstd::arithmetic::div_mod::lemma_mul_mod_noop(
                    pow(a as int, pow2((j - 1) as nat)),
                    pow(a as int, pow2((j - 1) as nat)),
                    n as int,
                );
            }
        }
        crate::number::lemma_coprime_mul_mod(x, x, n);
    }
}

/// How the index map treats one index: the high bits above the target
/// block, the control bit among them, never change; an index with the
/// control bit clear or a target block at or above `n` stays put; an
/// active index keeps its high bits and has its target block multiplied
/// by `a2j` modulo `n`.
proof fn lemma_cme_map_parts(nob: nat, a2j: nat, n: nat, control: nat, tlen: nat, i: nat)
    requires
        control < nob,
        tlen + control + 1 <= nob,
        1 <= n <= pow2(tlen),
        i < pow2(nob),
    ensures
        cme_map(nob, a2j, n, control, tlen, i) < pow2(nob),
        cme_map(nob, a2j, n, control, tlen, i) as int / pow2(tlen) as int == i as int / pow2(
            tlen,
        ) as int,
        bit_at(cme_map(nob, a2j, n, control, tlen, i), (nob - 1 - control) as nat) == bit_at(
            i,
            (nob - 1 - control) as nat,
        ),
        (bit_at(i, (nob - 1 - control) as nat) == 1 && i % pow2(tlen) < n) ==> cme_map(
            nob,
            a2j,
            n,
            control,
            tlen,
            i,
        ) % pow2(tlen) == (a2j * (i % pow2(tlen))) % n,
        !(bit_at(i, (nob - 1 - control) as nat) == 1 && i % pow2(tlen) < n) ==> cme_map(
            nob,
            a2j,
            n,
            control,
            tlen,
            i,
        ) == i,
{
    let pos = (nob - 1 - control) as nat;
    let pt = pow2(tlen) as int;
    let ph = pow2((pos - tlen) as nat) as int;
    vstd::arithmetic::power2::lemma_pow2_pos(tlen);
    vstd::arithmetic::power2::lemma_pow2_pos((pos - tlen) as nat);
    vstd::arithmetic::power2::lemma_pow2_pos(pos);
    vstd::arithmetic::power2::lemma_pow2_adds(tlen, (pos - tlen) as nat);
    let kp = i as int % pt;
    let hi = i as int / pt;
    vstd::arithmetic::div_mod::lemma_fundamental_div_mod(i as int, pt);
    let mp = cme_map(nob, a2j, n, control, tlen, i);
    if bit_at(i, pos) == 1 && kp < n {
        let nk = (a2j * (i % pow2(tlen))) % n;
        assert(nk < n);
        assert(mp as int == pt * hi + nk);
        vstd::arithmetic::div_mod::lemma_fundamental_div_mod_converse_mod(
            mp as int,
            pt,
            hi,
            nk as int,
        );
        vstd::arithmetic::div_mod::lemma_fundamental_div_mod_converse_div(
            mp as int,
            pt,
            hi,
            nk as int,
        );
        assert(mp < pow2(nob)) by {
            vstd::arithmetic::power2::lemma_pow2_adds(tlen, (nob - tlen) as nat);
            let hcap = pow2((nob - tlen) as nat) as int;
            vstd::arithmetic::div_mod::lemma_multiply_divide_lt(i as int, pt, hcap);
            assert(pt * hi + nk < pt * (hi + 1)) by (nonlinear_arith)
                requires
                    nk < pt,
            ;
            assert(pt * (hi + 1) <= pt * hcap) by (nonlinear_arith)
                requires
                    hi + 1 <= hcap,
                    pt >= 1,
            ;
        }
        assert(bit_at(mp, pos) == bit_at(i, pos)) by {
            vstd::arithmetic::div_mod::lemma_div_denominator(i as int, pt, ph);
            vstd::arithmetic::div_mod::lemma_div_denominator(mp as int, pt, ph);
        }
    } else {
        assert(mp == i);
    }
}

/// The controlled modular-exponentiation index map is injective whenever
/// the exponent factor is coprime to `n`: together with surjectivity this
/// makes it a permutation of the basis states, a bijection on the
/// subspace with the control bit set and the identity elsewhere.
pub proof fn lemma_cme_map_injective(
    nob: nat,
    a2j: nat,
    n: nat,
    control: nat,
    tlen: nat,
    i1: nat,
    i2: nat,
)
    requires
        1 <= n <= pow2(tlen),
        crate::number::gcd_spec(a2j, n) == 1,
        control < nob,
        tlen + control + 1 <= nob,
        i1 < pow2(nob),
        i2 < pow2(nob),
        cme_map(nob, a2j, n, control, tlen, i1) == cme_map(nob, a2j, n, control, tlen, i2),
    ensures
        i1 == i2,
{
    let pos = (nob - 1 - control) as nat;
    let pt = pow2(tlen) as int;
    vstd::arithmetic::power2::lemma_pow2_pos(tlen);
    lemma_cme_map_parts(nob, a2j, n, control, tlen, i1);
    lemma_cme_map_parts(nob, a2j, n, control, tlen, i2);
    let r = cme_map(nob, a2j, n, control, tlen, i1);
    let a1 = bit_at(i1, pos) == 1 && i1 % pow2(tlen) < n;
    let a2 = bit_at(i2, pos) == 1 && i2 % pow2(tlen) < n;
    vstd::arithmetic::div_mod::lemma_fundamental_div_mod(i1 as int, pt);
    vstd::arithmetic::div_mod::lemma_fundamental_div_mod(i2 as int, pt);
    vstd::arithmetic::div_mod::lemma_fundamental_div_mod(r as int, pt);
    if a1 && a2 {
        crate::number::lemma_coprime_cancel(
            a2j,
            n,
            (i1 % pow2(tlen)) as nat,
            (i2 % pow2(tlen)) as nat,
        );
    } else if a1 && !a2 {
        // r keeps i2 unchanged, so its target block is out of range or its
        // control bit is clear, contradicting the active image of i1
        assert(r == i2);
        assert(false);
    } else if !a1 && a2 {
        assert(r == i1);
        assert(false);
    } else {
        assert(r == i1 && r == i2);
    }
}

/// The controlled modular-exponentiation index map is surjective: every
/// basis state is the image of exactly one index.
pub proof fn lemma_cme_map_surjective(
    nob: nat,
    a2j: nat,
    n: nat,
    control: nat,
    tlen: nat,
    r: nat,
)
    requires
        1 <= n <= pow2(tlen),
        crate::number::gcd_spec(a2j, n) == 1,
        control < nob,
        tlen + control + 1 <= nob,
        r < pow2(nob),
    ensures
        exists|i: nat|
            i < pow2(nob) && #[trigger] cme_map(nob, a2j, n, control, tlen, i) == r,
{
    let pos = (nob - 1 - control) as nat;
    let pt = pow2(tlen) as int;
    vstd::arithmetic::power2::lemma_pow2_pos(tlen);
    let kr = r as int % pt;
    let hi = r as int / pt;
    vstd::arithmetic::div_mod::lemma_fundamental_div_mod(r as int, pt);
    if !(bit_at(r, pos) == 1 && kr < n) {
        lemma_cme_map_parts(nob, a2j, n, control, tlen, r);
        assert(cme_map(nob, a2j, n, control, tlen, r) == r);
    } else {
        crate::number::lemma_bezout(a2j, n);
        let (u, v) = choose|u: int, v: int| #[trigger] (u * a2j) + #[trigger] (v * n) == 1;
        let k = (u * kr) % (n as int);
        assert(0 <= k < n);
        let i = (pt * hi + k) as nat;
        assert(i as int == pt * hi + k);
        vstd::arithmetic::div_mod::lemma_fundamental_div_mod_converse_mod(i as int, pt, hi, k);
        vstd::arithmetic::div_mod::lemma_fundamental_div_mod_converse_div(i as int, pt, hi, k);
        assert(i < pow2(nob)) by {
            vstd::arithmetic::power2::lemma_pow2_adds(tlen, (nob - tlen) as nat);
            let hcap = pow2((nob - tlen) as nat) as int;
            vstd::arithmetic::div_mod::lemma_multiply_divide_lt(r as int, pt, hcap);
            assert(pt * hi + k < pt * (hi + 1)) by (nonlinear_arith)
                requires
                    k < pt,
            ;
            assert(pt * (hi + 1) <= pt * hcap) by (nonlinear_arith)
                requires
                    hi + 1 <= hcap,
                    pt >= 1,
            ;
        }
        assert(bit_at(i, pos) == bit_at(r, pos)) by {
            let ph = pow2((pos - tlen) as nat) as int;
            vstd::arithmetic::power2::lemma_pow2_pos((pos - tlen) as nat);
            vstd::arithmetic::power2::lemma_pow2_adds(tlen, (pos - tlen) as nat);
            vstd::arithmetic::div_mod::lemma_div_denominator(i as int, pt, ph);
            vstd::arithmetic::div_mod::lemma_div_denominator(r as int, pt, ph);
        }
        assert((a2j * (k as nat)) % n == kr) by {
            vstd::arithmetic::div_mod::lemma_fundamental_div_mod(u * kr, n as int);
            let q = (u * kr) / (n as int);
            assert(k == u * kr - n * q);
            let s0 = -(v * kr + a2j * q);
            assert(a2j * k == n * s0 + kr) by (nonlinear_arith)
                requires
                    u * a2j + v * n == 1,
                    k == u * kr - n * q,
                    s0 == -(v * kr + a2j * q),
            ;
            vstd::arithmetic::div_mod::lemma_mod_multiples_vanish(s0, kr, n as int);
            vstd::arithmetic::div_mod::lemma_small_mod(kr as nat, n);
        }
        assert(cme_map(nob, a2j, n, control, tlen, i) == (i - k + (a2j * (i % pow2(tlen))) % n)
            as nat);
        assert(cme_map(nob, a2j, n, control, tlen, i) == r);
    }
}

/// For every unitary gate, composing its conjugate transpose with the
/// gate itself yields the identity, up to the shared power-of-two scale.
pub proof fn lemma_dagger_cancels(g: MatP)
    requires
        mp_is_unitary(g),
    ensures
        mp_eqv(
            MatP { e: sm_mul(sm_dagger(g.e), g.e), k: g.k + g.k },
            MatP { e: sm_id(g.e.len()), k: 0 },
        ),
{
}

/// A dot product against a row with at most one non-zero entry collapses
/// to the single product.
proof fn lemma_dot_single(row: Seq<CQ>, v: Seq<CQ>, j: nat, p: int)
    requires
        j <= row.len(),
        j <= v.len(),
        0 <= p,
        forall|l: int| 0 <= l < j && l != p ==> row[l] == cq_zero(),
    ensures
        p < j ==> dot_pre(row, v, j) == cq_mul(row[p], v[p]),
        p >= j ==> dot_pre(row, v, j) == cq_zero(),
    decreases j,
{
    if j > 0 {
        lemma_dot_single(row, v, (j - 1) as nat, p);
        if p == j - 1 {
            assert(cq_add(cq_zero(), cq_mul(row[p], v[p])) == cq_mul(row[p], v[p]));
        } else {
            assert(cq_mul(cq_zero(), v[j - 1]) == cq_zero());
        }
    }
}

/// Ground facts about units, hoisted so larger proofs need no fresh
/// arithmetic.
proof fn lemma_unit_mul_facts()
    ensures
        cq_conj(cq_one()) == cq_one(),
        cq_mul(cq_one(), cq_one()) == cq_one(),
        cq_mul(cq_one(), cq_zero()) == cq_zero(),
        cq_mul(cq_conj(cq_one()), cq_one()) == cq_one(),
        cq_mul(cq_conj(cq_one()), cq_zero()) == cq_zero(),
{
}

proof fn lemma_dy_eq_refl_zero(v: CQ)
    ensures
        dy_eq(v, 0, v, 0),
{
    lemma2_to64();
    assert(cq_scale(v, pow2(0) as int) == cq_scale(v, pow2(0) as int));
}

/// The bit-flip gate is unitary: it permutes the two basis states.
#[verifier::rlimit(60)]
pub proof fn lemma_x_unitary()
    ensures
        mp_is_unitary(MatP { e: sm_x(), k: 0 }),
{
    lemma_unit_mul_facts();
    let e = sm_x();
    let p = sm_mul(sm_dagger(e), e);
    assert forall|i: int, j: int| 0 <= i < 2 && 0 <= j < 2 implies dy_eq(
        p[i][j],
        0,
        sm_id(2)[i][j],
        0,
    ) by {
        let o = 1 - i;
        assert(e[0][0] == cq_zero() && e[1][1] == cq_zero() && e[0][1] == cq_one() && e[1][0]
            == cq_one());
        assert(forall|l: int| 0 <= l < 2 && l != o ==> sm_dagger(e)[i][l] == cq_zero());
        assert(p[i][j] == dot_pre(sm_dagger(e)[i], sm_col(e, j), 2));
        lemma_dot_single(sm_dagger(e)[i], sm_col(e, j), 2, o);
        assert(sm_dagger(e)[i][o] == cq_conj(e[o][i]));
        assert(sm_col(e, j)[o] == e[o][j]);
        if i == j {
            assert(p[i][j] == cq_one());
        } else {
            assert(e[o][j] == cq_zero());
            assert(p[i][j] == cq_zero());
        }
        lemma_dy_eq_refl_zero(p[i][j]);
        assert(sm_id(2)[i][j] == p[i][j]);
    }
}

/// Evaluation of a two-term dot product.
proof fn lemma_dot_two(row: Seq<CQ>, v: Seq<CQ>)
    requires
        row.len() >= 2,
        v.len() >= 2,
    ensures
        dot_pre(row, v, 2) == cq_add(cq_mul(row[0], v[0]), cq_mul(row[1], v[1])),
{
    reveal_with_fuel(dot_pre, 3);
    assert(cq_add(cq_zero(), cq_mul(row[0], v[0])) == cq_mul(row[0], v[0]));
}

/// Ground products of the square root of two and its negation.
proof fn lemma_s2_facts()
    ensures
        cq_conj(CQ { a: 0, b: 1, c: 0, d: -1 }) == (CQ { a: 0, b: 1, c: 0, d: -1 }),
        cq_conj(CQ { a: 0, b: -1, c: 0, d: 1 }) == (CQ { a: 0, b: -1, c: 0, d: 1 }),
        cq_mul(CQ { a: 0, b: 1, c: 0, d: -1 }, CQ { a: 0, b: 1, c: 0, d: -1 }) == (CQ {
            a: 2,
            b: 0,
            c: 0,
            d: 0,
        }),
        cq_mul(CQ { a: 0, b: 1, c: 0, d: -1 }, CQ { a: 0, b: -1, c: 0, d: 1 }) == (CQ {
            a: -2,
            b: 0,
            c: 0,
            d: 0,
        }),
        cq_mul(CQ { a: 0, b: -1, c: 0, d: 1 }, CQ { a: 0, b: 1, c: 0, d: -1 }) == (CQ {
            a: -2,
            b: 0,
            c: 0,
            d: 0,
        }),
        cq_mul(CQ { a: 0, b: -1, c: 0, d: 1 }, CQ { a: 0, b: -1, c: 0, d: 1 }) == (CQ {
            a: 2,
            b: 0,
            c: 0,
            d: 0,
        }),
        cq_add(CQ { a: 2, b: 0, c: 0, d: 0 }, CQ { a: 2, b: 0, c: 0, d: 0 }) == (CQ {
            a: 4,
            b: 0,
            c: 0,
            d: 0,
        }),
        cq_add(CQ { a: 2, b: 0, c: 0, d: 0 }, CQ { a: -2, b: 0, c: 0, d: 0 }) == cq_zero(),
        cq_add(CQ { a: -2, b: 0, c: 0, d: 0 }, CQ { a: 2, b: 0, c: 0, d: 0 }) == cq_zero(),
{
}

/// Scale bookkeeping for the Hadamard product: 4 over denominator 4 is 1.
proof fn lemma_dy_h_facts()
    ensures
        dy_eq(CQ { a: 4, b: 0, c: 0, d: 0 }, 2, cq_one(), 0),
        dy_eq(cq_zero(), 2, cq_zero(), 0),
{
    lemma2_to64();
}

/// The Hadamard gate is unitary: with numerator entries of plus or minus
/// the square root of two and denominator exponent 1, the composed
/// product is four times the identity over denominator four.
#[verifier::rlimit(60)]
pub proof fn lemma_h_unitary()
    ensures
        mp_is_unitary(MatP { e: sm_h(), k: 1 }),
{
    lemma_s2_facts();
    lemma_dy_h_facts();
    let s2 = CQ { a: 0, b: 1, c: 0, d: -1 };
    let ns = CQ { a: 0, b: -1, c: 0, d: 1 };
    let e = sm_h();
    let p = sm_mul(sm_dagger(e), e);
    assert(cq_neg(s2) == ns);
    assert forall|i: int, j: int| 0 <= i < 2 && 0 <= j < 2 implies dy_eq(
        p[i][j],
        2,
        sm_id(2)[i][j],
        0,
    ) by {
        assert(e[0][0] == s2 && e[0][1] == s2 && e[1][0] == s2 && e[1][1] == ns);
        assert(p[i][j] == dot_pre(sm_dagger(e)[i], sm_col(e, j), 2));
        lemma_dot_two(sm_dagger(e)[i], sm_col(e, j));
        assert(sm_dagger(e)[i][0] == cq_conj(e[0][i]));
        assert(sm_dagger(e)[i][1] == cq_conj(e[1][i]));
        assert(sm_col(e, j)[0] == e[0][j]);
        assert(sm_col(e, j)[1] == e[1][j]);
        if i == 0 && j == 0 {
            assert(p[i][j] == cq_add(cq_mul(s2, s2), cq_mul(s2, s2)));
        } else if i == 0 && j == 1 {
            assert(p[i][j] == cq_add(cq_mul(s2, s2), cq_mul(s2, ns)));
        } else if i == 1 && j == 0 {
            assert(p[i][j] == cq_add(cq_mul(s2, s2), cq_mul(ns, s2)));
        } else {
            assert(p[i][j] == cq_add(cq_mul(s2, s2), cq_mul(ns, ns)));
        }
    }
}

/// Every phase `w^m` has unit magnitude.
proof fn lemma_omega_unit(m: nat)
    ensures
        cq_mul(cq_conj(omega_cq(m)), omega_cq(m)) == cq_one(),
{
}

/// The controlled phase rotation is unitary: it is diagonal with entries
/// of unit magnitude.
pub proof fn lemma_cr_unitary(nob: nat, m: nat, control: nat, target: nat)
    ensures
        mp_is_unitary(MatP { e: sm_cr(nob, m, control, target), k: 0 }),
{
    lemma2_to64();
    let e = sm_cr(nob, m, control, target);
    let n = pow2(nob);
    let p = sm_mul(sm_dagger(e), e);
    assert forall|i: int, j: int| 0 <= i < n && 0 <= j < n implies dy_eq(
        p[i][j],
        0,
        sm_id(n)[i][j],
        0,
    ) by {
        assert(p[i][j] == dot_pre(sm_dagger(e)[i], sm_col(e, j), n));
        assert(forall|l: int| 0 <= l < n && l != i ==> sm_dagger(e)[i][l] == cq_zero());
        lemma_dot_single(sm_dagger(e)[i], sm_col(e, j), n, i);
        assert(sm_dagger(e)[i][i] == cq_conj(e[i][i]));
        assert(sm_col(e, j)[i] == e[i][j]);
        if i == j {
            lemma_omega_unit(m);
            lemma_unit_mul_facts();
            assert(p[i][j] == cq_one());
        } else {
            assert(e[i][j] == cq_zero());
            lemma_conj_mul_zero(e[i][i]);
            assert(p[i][j] == cq_zero());
        }
        lemma_dy_eq_refl_zero(p[i][j]);
        assert(sm_id(n)[i][j] == p[i][j]);
    }
}

/// Multiplying any conjugate by zero gives zero.
proof fn lemma_conj_mul_zero(x: CQ)
    ensures
        cq_mul(cq_conj(x), cq_zero()) == cq_zero(),
{
    assert(cq_mul(cq_conj(x), cq_zero()).a == 0) by (nonlinear_arith);
    assert(cq_mul(cq_conj(x), cq_zero()).b == 0) by (nonlinear_arith);
    assert(cq_mul(cq_conj(x), cq_zero()).c == 0) by (nonlinear_arith);
    assert(cq_mul(cq_conj(x), cq_zero()).d == 0) by (nonlinear_arith);
}

/// The controlled modular-exponentiation gate is unitary whenever the
/// exponent factor is coprime to `n`: its index map is then a permutation
/// of the basis states, and a permutation matrix preserves the norm.
#[verifier::rlimit(60)]
pub proof fn lemma_cme_unitary(nob: nat, a2j: nat, n: nat, control: nat, tlen: nat)
    requires
        1 <= n <= pow2(tlen),
        crate::number::gcd_spec(a2j, n) == 1,
        control < nob,
        tlen + control + 1 <= nob,
    ensures
        mp_is_unitary(MatP { e: sm_cme(nob, a2j, n, control, tlen), k: 0 }),
{
    lemma2_to64();
    let e = sm_cme(nob, a2j, n, control, tlen);
    let nn = pow2(nob);
    let p = sm_mul(sm_dagger(e), e);
    assert forall|i: int, j: int| 0 <= i < nn && 0 <= j < nn implies dy_eq(
        p[i][j],
        0,
        sm_id(nn)[i][j],
        0,
    ) by {
        lemma_cme_map_parts(nob, a2j, n, control, tlen, i as nat);
        let mi = cme_map(nob, a2j, n, control, tlen, i as nat);
        assert(p[i][j] == dot_pre(sm_dagger(e)[i], sm_col(e, j), nn));
        assert(forall|l: int| 0 <= l < nn && l != mi ==> sm_dagger(e)[i][l] == cq_zero());
        lemma_dot_single(sm_dagger(e)[i], sm_col(e, j), nn, mi as int);
        assert(sm_dagger(e)[i][mi as int] == cq_conj(e[mi as int][i]));
        assert(sm_col(e, j)[mi as int] == e[mi as int][j]);
        assert(e[mi as int][i] == cq_one());
        lemma_unit_mul_facts();
        if i == j {
            assert(e[mi as int][j] == cq_one());
            assert(p[i][j] == cq_one());
        } else {
            assert(e[mi as int][j] == cq_zero()) by {
                if cme_map(nob, a2j, n, control, tlen, j as nat) == mi {
                    lemma_cme_map_injective(
                        nob,
                        a2j,
                        n,
                        control,
                        tlen,
                        i as nat,
                        j as nat,
                    );
                }
            }
            assert(p[i][j] == cq_zero());
        }
        lemma_dy_eq_refl_zero(p[i][j]);
        assert(sm_id(nn)[i][j] == p[i][j]);
    }
}

/// The phase `w^m` as a stored quadruple.
fn omega_quad(m: u32) -> (q: Quad)
    ensures
        q@ == omega_cq(m as nat),
        cq_bounded(q@, 1),
{
    let r = m % 8;
    if r == 0 {
        Quad { a: 1, b: 0, c: 0, d: 0 }
    } else if r == 1 {
        Quad { a: 0, b: 1, c: 0, d: 0 }
    } else if r == 2 {
        Quad { a: 0, b: 0, c: 1, d: 0 }
    } else if r == 3 {
        Quad { a: 0, b: 0, c: 0, d: 1 }
    } else if r == 4 {
        Quad { a: -1, b: 0, c: 0, d: 0 }
    } else if r == 5 {
        Quad { a: 0, b: -1, c: 0, d: 0 }
    } else if r == 6 {
        Quad { a: 0, b: 0, c: -1, d: 0 }
    } else {
        Quad { a: 0, b: 0, c: 0, d: -1 }
    }
}

/// Controlled phase rotation gate on the full register width.
pub fn cr_gate(m: u32, nob: u32, control: u32, target: u32) -> (g: Gate)
    requires
        nob <= 28,
        control < nob,
        target < nob,
    ensures
        gate_wf(g),
        g.k == 0,
        g.m@.len() == pow2(nob as nat),
        ent(g) == sm_cr(nob as nat, m as nat, control as nat, target as nat),
{
    let dim = pow2_usize(nob);
    let pc = pow2_usize(nob - 1 - control);
    let pt = pow2_usize(nob - 1 - target);
    let om = omega_quad(m);
    let ghost te = sm_cr(nob as nat, m as nat, control as nat, target as nat);
    let mut mm: Vec<Vec<Quad>> = Vec::new();
    let mut r0: usize = 0;
    while r0 < dim
        invariant
            r0 <= dim,
            dim == pow2(nob as nat),
            pc == pow2((nob - 1 - control) as nat),
            pt == pow2((nob - 1 - target) as nat),
            pc >= 1,
            pt >= 1,
            om@ == omega_cq(m as nat),
            cq_bounded(om@, 1),
            te == sm_cr(nob as nat, m as nat, control as nat, target as nat),
            mm@.len() == r0,
            forall|i: int| 0 <= i < r0 ==> (#[trigger] ent_row(mm@[i]@)) =~= te[i],
        decreases dim - r0,
    {
        let cbit = (r0 / pc) % 2;
        let tbit = (r0 / pt) % 2;
        let diag = if cbit == 1 && tbit == 1 {
            om
        } else {
            Quad { a: 1, b: 0, c: 0, d: 0 }
        };
        let mut row: Vec<Quad> = Vec::new();
        let mut c: usize = 0;
        while c < dim
            invariant
                c <= dim,
                r0 < dim,
                dim == pow2(nob as nat),
                te == sm_cr(nob as nat, m as nat, control as nat, target as nat),
                te[r0 as int].len() == dim,
                diag@ == te[r0 as int][r0 as int],
                cq_bounded(diag@, 1),
                row@.len() == c,
                forall|l: int| 0 <= l < c ==> #[trigger] ent_row(row@)[l] == te[r0 as int][l],
            decreases dim - c,
        {
            let ghost prev = row@;
            if c == r0 {
                row.push(diag);
            } else {
                row.push(Quad { a: 0, b: 0, c: 0, d: 0 });
            }
            proof {
                assert forall|l: int| 0 <= l < c + 1 implies #[trigger] ent_row(row@)[l]
                    == te[r0 as int][l] by {
                    if l < c {
                        assert(row@[l] == prev[l]);
                        assert(ent_row(prev)[l] == te[r0 as int][l]);
                    } else {
                        assert(ent_row(row@)[l] == row@[l]@);
                    }
                }
            }
            c += 1;
        }
        let ghost prevm = mm@;
        mm.push(row);
        proof {
            assert forall|i: int| 0 <= i < r0 + 1 implies (#[trigger] ent_row(mm@[i]@))
                =~= te[i] by {
                if i < r0 {
                    assert(mm@[i] == prevm[i]);
                    assert(ent_row(prevm[i]@) =~= te[i]);
                }
            }
        }
        r0 += 1;
    }
    let g = Gate { m: mm, k: 0 };
    proof {
        assert(ent(g) =~= te) by {
            assert forall|i: int| 0 <= i < dim implies ent(g)[i] =~= te[i] by {
                assert(ent(g)[i] == ent_row(g.m@[i]@));
            }
        }
        assert(gate_wf(g)) by {
            assert forall|i: int, jj: int|
                0 <= i < ent(g).len() && 0 <= jj < ent(g)[i].len() implies cq_bounded(
                #[trigger] ent(g)[i][jj],
                coeff_limit(),
            ) by {
                assert(ent(g)[i][jj] == te[i][jj]);
            }
        }
    }
    g
}

/// Controlled modular-exponentiation gate: the permutation matrix of the
/// index map that multiplies the target block by `a^(2^j) mod n` on every
/// basis state whose control bit is set. Only the length of `target`
/// matters: the target block is the register's trailing qubits.
pub fn cmodexp2(nob: u32, a: u32, j: u32, n: u32, control: u32, target: &[u32]) -> (g: Gate)
    requires
        nob <= 28,
        control < nob,
        target@.len() <= nob,
        1 <= n <= pow2(target@.len()),
    ensures
        gate_wf(g),
        g.k == 0,
        g.m@.len() == pow2(nob as nat),
        ent(g) == sm_cme(
            nob as nat,
            modexp2_spec(a as nat, j as nat, n as nat),
            n as nat,
            control as nat,
            target@.len(),
        ),
{
    let tlen: u32 = target.len() as u32;
    let dim = pow2_usize(nob);
    let pc = pow2_usize(nob - 1 - control);
    let pt = pow2_usize(tlen);
    let a2j = crate::number::modexp2(a, j, n);
    let ghost a2s = modexp2_spec(a as nat, j as nat, n as nat);
    proof {
        assert(a2j == a2s && a2j < n);
    }
    // the permutation as an index table, exactly as it is applied
    let mut index: Vec<usize> = Vec::new();
    let mut c: usize = 0;
    while c < dim
        invariant
            c <= dim,
            dim == pow2(nob as nat),
            pc == pow2((nob - 1 - control) as nat),
            pt == pow2(tlen as nat),
            pc >= 1,
            1 <= pt <= 0x1000_0000,
            tlen == target@.len(),
            tlen <= nob <= 28,
            1 <= n <= pow2(tlen as nat),
            a2j == a2s,
            a2j < n,
            index@.len() == c,
            forall|l: int| 0 <= l < c ==> index@[l] == cme_map(
                nob as nat,
                a2s,
                n as nat,
                control as nat,
                tlen as nat,
                l as nat,
            ) && #[trigger] index@[l] < dim,
        decreases dim - c,
    {
        let cbit = (c / pc) % 2;
        let kp = c % pt;
        let idx: usize = if cbit == 1 && kp < n as usize {
            proof {
                assert((a2j as int) * (kp as int) < 0x1_0000_0000_0000_0000) by (nonlinear_arith)
                    requires
                        a2j < 0x1_0000_0000,
                        kp < 0x1000_0000,
                ;
            }
            let nk: usize = ((a2j as u64) * (kp as u64) % (n as u64)) as usize;
            proof {
                vstd::arithmetic::div_mod::lemma_fundamental_div_mod(c as int, pt as int);
                vstd::arithmetic::power2::lemma_pow2_adds(
                    (nob - tlen) as nat,
                    tlen as nat,
                );
                let q = c as int / pt as int;
                let hi = pow2((nob - tlen) as nat) as int;
                assert(dim == hi * pt);
                vstd::arithmetic::div_mod::lemma_multiply_divide_lt(c as int, pt as int, hi);
                assert(q + 1 <= hi);
                assert((q + 1) * (pt as int) <= hi * (pt as int)) by (nonlinear_arith)
                    requires
                        q + 1 <= hi,
                        pt as int >= 1,
                ;
                assert(c - kp == q * (pt as int));
                assert(q * (pt as int) + pt == (q + 1) * (pt as int)) by (nonlinear_arith);
                assert(c - kp + nk < dim);
            }
            c - kp + nk
        } else {
            c
        };
        index.push(idx);
        c += 1;
    }
    // the matrix with a one in row index[c] of column c
    let ghost te = sm_cme(nob as nat, a2s, n as nat, control as nat, tlen as nat);
    let mut mm: Vec<Vec<Quad>> = Vec::new();
    let mut r0: usize = 0;
    while r0 < dim
        invariant
            r0 <= dim,
            dim == pow2(nob as nat),
            index@.len() == dim,
            forall|l: int| 0 <= l < dim ==> index@[l] == cme_map(
                nob as nat,
                a2s,
                n as nat,
                control as nat,
                tlen as nat,
                l as nat,
            ) && #[trigger] index@[l] < dim,
            te == sm_cme(nob as nat, a2s, n as nat, control as nat, tlen as nat),
            mm@.len() == r0,
            forall|i: int| 0 <= i < r0 ==> (#[trigger] ent_row(mm@[i]@)) =~= te[i],
        decreases dim - r0,
    {
        let mut row: Vec<Quad> = Vec::new();
        let mut cc: usize = 0;
        while cc < dim
            invariant
                cc <= dim,
                r0 < dim,
                dim == pow2(nob as nat),
                index@.len() == dim,
                forall|l: int| 0 <= l < dim ==> index@[l] == cme_map(
                    nob as nat,
                    a2s,
                    n as nat,
                    control as nat,
                    tlen as nat,
                    l as nat,
                ) && #[trigger] index@[l] < dim,
                te == sm_cme(nob as nat, a2s, n as nat, control as nat, tlen as nat),
                te[r0 as int].len() == dim,
                row@.len() == cc,
                forall|l: int| 0 <= l < cc ==> #[trigger] ent_row(row@)[l] == te[r0 as int][l],
            decreases dim - cc,
        {
            let ghost prev = row@;
            if index[cc] == r0 {
                row.push(Quad { a: 1, b: 0, c: 0, d: 0 });
            } else {
                row.push(Quad { a: 0, b: 0, c: 0, d: 0 });
            }
            proof {
                assert forall|l: int| 0 <= l < cc + 1 implies #[trigger] ent_row(row@)[l]
                    == te[r0 as int][l] by {
                    if l < cc {
                        assert(row@[l] == prev[l]);
                        assert(ent_row(prev)[l] == te[r0 as int][l]);
                    } else {
                        assert(ent_row(row@)[l] == row@[l]@);
                    }
                }
            }
            cc += 1;
        }
        let ghost prevm = mm@;
        mm.push(row);
        proof {
            assert forall|i: int| 0 <= i < r0 + 1 implies (#[trigger] ent_row(mm@[i]@))
                =~= te[i] by {
                if i < r0 {
                    assert(mm@[i] == prevm[i]);
                    assert(ent_row(prevm[i]@) =~= te[i]);
                }
            }
        }
        r0 += 1;
    }
    let g = Gate { m: mm, k: 0 };
    proof {
        assert(ent(g) =~= te) by {
            assert forall|i: int| 0 <= i < dim implies ent(g)[i] =~= te[i] by {
                assert(ent(g)[i] == ent_row(g.m@[i]@));
            }
        }
        assert(gate_wf(g)) by {
            assert forall|i: int, jj: int|
                0 <= i < ent(g).len() && 0 <= jj < ent(g)[i].len() implies cq_bounded(
                #[trigger] ent(g)[i][jj],
                coeff_limit(),
            ) by {
                assert(ent(g)[i][jj] == te[i][jj]);
            }
        }
    }
    g
}

/// A product of values within `[-m1, m1]` and `[-m2, m2]` lies within
/// `[-m1*m2, m1*m2]`.
proof fn lemma_prod_bound(u: int, w: int, m1: int, m2: int)
    by (nonlinear_arith)
    requires
        -m1 <= u <= m1,
        -m2 <= w <= m2,
        m1 >= 0,
        m2 >= 0,
    ensures
        -(m1 * m2) <= u * w <= m1 * m2,
{
}

/// Each product coefficient is a signed sum of four coefficient products.
pub proof fn lemma_cq_mul_bounded(x: CQ, y: CQ, m1: int, m2: int)
    requires
        cq_bounded(x, m1),
        cq_bounded(y, m2),
        m1 >= 0,
        m2 >= 0,
    ensures
        cq_bounded(cq_mul(x, y), 4 * (m1 * m2)),
{
    lemma_prod_bound(x.a, y.a, m1, m2);
    lemma_prod_bound(x.a, y.b, m1, m2);
    lemma_prod_bound(x.a, y.c, m1, m2);
    lemma_prod_bound(x.a, y.d, m1, m2);
    lemma_prod_bound(x.b, y.a, m1, m2);
    lemma_prod_bound(x.b, y.b, m1, m2);
    lemma_prod_bound(x.b, y.c, m1, m2);
    lemma_prod_bound(x.b, y.d, m1, m2);
    lemma_prod_bound(x.c, y.a, m1, m2);
    lemma_prod_bound(x.c, y.b, m1, m2);
    lemma_prod_bound(x.c, y.c, m1, m2);
    lemma_prod_bound(x.c, y.d, m1, m2);
    lemma_prod_bound(x.d, y.a, m1, m2);
    lemma_prod_bound(x.d, y.b, m1, m2);
    lemma_prod_bound(x.d, y.c, m1, m2);
    lemma_prod_bound(x.d, y.d, m1, m2);
}

/// A partial dot product of bounded entries grows at most linearly.
pub proof fn lemma_dot_pre_bounded(row: Seq<CQ>, v: Seq<CQ>, j: nat, m1: int, m2: int)
    requires
        m1 >= 0,
        m2 >= 0,
        j <= row.len(),
        j <= v.len(),
        forall|l: int| 0 <= l < j ==> cq_bounded(#[trigger] row[l], m1),
        forall|l: int| 0 <= l < j ==> cq_bounded(#[trigger] v[l], m2),
    ensures
        cq_bounded(dot_pre(row, v, j), j * (4 * (m1 * m2))),
    decreases j,
{
    if j > 0 {
        lemma_dot_pre_bounded(row, v, (j - 1) as nat, m1, m2);
        lemma_cq_mul_bounded(row[j - 1], v[j - 1], m1, m2);
        let t = 4 * (m1 * m2);
        assert((j - 1) * t + t == j * t) by (nonlinear_arith);
        assert(-((j - 1) * t) - t == -(j * t)) by (nonlinear_arith);
    }
}

/// Success condition of the tensor product: the result stays within the
/// dimension, exponent and coefficient caps.
pub open spec fn tensor_ok(x: MatP, y: MatP) -> bool {
    &&& x.e.len() * y.e.len() <= dim_cap()
    &&& x.k + y.k <= 0x1000_0000
    &&& sm_bounded(sm_tensor(x.e, y.e), coeff_limit())
}

/// Tensor product of two gates; nothing when the result would leave the
/// representable range.
pub fn tensor(xg: &Gate, yg: &Gate) -> (r: Option<Gate>)
    requires
        gate_wf(*xg),
        gate_wf(*yg),
    ensures
        r is Some <==> tensor_ok(gv(*xg), gv(*yg)),
        match r {
            Some(g) => gate_wf(g) && ent(g) == sm_tensor(ent(*xg), ent(*yg)) && g.k == xg.k + yg.k
                && g.m@.len() == xg.m@.len() * yg.m@.len(),
            None => true,
        },
{
    let nx = xg.m.len();
    let ny = yg.m.len();
    proof {
        assert((nx as int) * (ny as int) <= 0x100_0000_0000_0000) by (nonlinear_arith)
            requires
                nx <= 0x1000_0000,
                ny <= 0x1000_0000,
        ;
    }
    let prod: u64 = (nx as u64) * (ny as u64);
    if prod > 0x1000_0000 {
        return None;
    }
    if xg.k > 0x1000_0000 - yg.k {
        proof {
            assert(!tensor_ok(gv(*xg), gv(*yg)));
        }
        return None;
    }
    let n: usize = prod as usize;
    let ghost te = sm_tensor(ent(*xg), ent(*yg));
    let mut m: Vec<Vec<Quad>> = Vec::new();
    let mut r0: usize = 0;
    proof {
        assert forall|u: int, w: int|
            -0x8000_0000 <= u <= 0x8000_0000 && -0x8000_0000 <= w
                <= 0x8000_0000 implies -0x4000_0000_0000_0000 <= #[trigger] (u * w)
            <= 0x4000_0000_0000_0000 by {
            lemma_prod_bound(u, w, 0x8000_0000, 0x8000_0000);
        }
    }
    while r0 < n
        invariant
            r0 <= n,
            n == nx * ny,
            nx == xg.m@.len(),
            ny == yg.m@.len(),
            gate_wf(*xg),
            gate_wf(*yg),
            te == sm_tensor(ent(*xg), ent(*yg)),
            m@.len() == r0,
            forall|u: int, w: int|
                -0x8000_0000 <= u <= 0x8000_0000 && -0x8000_0000 <= w
                    <= 0x8000_0000 ==> -0x4000_0000_0000_0000 <= #[trigger] (u * w)
                    <= 0x4000_0000_0000_0000,
            forall|i: int| 0 <= i < r0 ==> (#[trigger] ent_row(m@[i]@)) =~= te[i]
                && ent_row(m@[i]@).len() == n,
            forall|i: int, j: int| 0 <= i < r0 && 0 <= j < n ==> cq_bounded(
                #[trigger] ent_row(m@[i]@)[j],
                coeff_limit(),
            ),
        decreases n - r0,
    {
        let xi = r0 / ny;
        let yi = r0 % ny;
        proof {
            assert((nx as int) * (ny as int) == (ny as int) * (nx as int)) by (nonlinear_arith);
            vstd::arithmetic::div_mod::lemma_multiply_divide_lt(r0 as int, ny as int, nx as int);
        }
        let mut row: Vec<Quad> = Vec::new();
        let mut c: usize = 0;
        while c < n
            invariant
                c <= n,
                r0 < n,
                n == nx * ny,
                nx == xg.m@.len(),
                ny == yg.m@.len(),
                gate_wf(*xg),
                gate_wf(*yg),
                te == sm_tensor(ent(*xg), ent(*yg)),
                xi == r0 as int / ny as int,
                yi == r0 as int % ny as int,
                xi < nx,
                yi < ny,
                row@.len() == c,
                forall|u: int, w: int|
                    -0x8000_0000 <= u <= 0x8000_0000 && -0x8000_0000 <= w
                        <= 0x8000_0000 ==> -0x4000_0000_0000_0000 <= #[trigger] (u * w)
                        <= 0x4000_0000_0000_0000,
                forall|j: int| 0 <= j < c ==> #[trigger] ent_row(row@)[j] == te[r0 as int][j]
                    && cq_bounded(ent_row(row@)[j], coeff_limit()),
            decreases n - c,
        {
            let xj = c / ny;
            let yj = c % ny;
            proof {
                assert((nx as int) * (ny as int) == (ny as int) * (nx as int)) by (nonlinear_arith);
                vstd::arithmetic::div_mod::lemma_multiply_divide_lt(c as int, ny as int, nx as int);
                assert(ent(*xg)[xi as int].len() == nx);
                assert(xg.m@[xi as int]@.len() == nx);
                assert(ent(*yg)[yi as int].len() == ny);
                assert(yg.m@[yi as int]@.len() == ny);
            }
            let x = &xg.m[xi][xj];
            let y = &yg.m[yi][yj];
            proof {
                assert(x@ == ent(*xg)[xi as int][xj as int]);
                assert(y@ == ent(*yg)[yi as int][yj as int]);
                assert(cq_bounded(x@, coeff_limit()));
                assert(cq_bounded(y@, coeff_limit()));
            }
            let xa = x.a as i128;
            let xb = x.b as i128;
            let xc = x.c as i128;
            let xd = x.d as i128;
            let ya = y.a as i128;
            let yb = y.b as i128;
            let yc = y.c as i128;
            let yd = y.d as i128;
            let pa: i128 = xa * ya - xb * yd - xc * yc - xd * yb;
            let pb: i128 = xa * yb + xb * ya - xc * yd - xd * yc;
            let pc: i128 = xa * yc + xb * yb + xc * ya - xd * yd;
            let pd: i128 = xa * yd + xb * yc + xc * yb + xd * ya;
            proof {
                assert(CQ { a: pa as int, b: pb as int, c: pc as int, d: pd as int } == cq_mul(
                    x@,
                    y@,
                ));
                assert(te[r0 as int][c as int] == cq_mul(x@, y@));
            }
            if pa > 0x8000_0000 || pa < -0x8000_0000 || pb > 0x8000_0000 || pb < -0x8000_0000
                || pc > 0x8000_0000 || pc < -0x8000_0000 || pd > 0x8000_0000 || pd
                < -0x8000_0000 {
                proof {
                    assert(!cq_bounded(te[r0 as int][c as int], coeff_limit()));
                    assert(!sm_bounded(sm_tensor(ent(*xg), ent(*yg)), coeff_limit()));
                }
                return None;
            }
            let ghost prev = row@;
            row.push(Quad { a: pa as i64, b: pb as i64, c: pc as i64, d: pd as i64 });
            proof {
                assert forall|j: int| 0 <= j < c + 1 implies #[trigger] ent_row(row@)[j]
                    == te[r0 as int][j] && cq_bounded(ent_row(row@)[j], coeff_limit()) by {
                    if j < c {
                        assert(row@[j] == prev[j]);
                        assert(ent_row(prev)[j] == te[r0 as int][j]);
                        assert(cq_bounded(ent_row(prev)[j], coeff_limit()));
                    } else {
                        assert(ent_row(row@)[j] == row@[j]@);
                    }
                }
            }
            c += 1;
        }
        let ghost prevm = m@;
        m.push(row);
        proof {
            assert forall|i: int| 0 <= i < r0 + 1 implies (#[trigger] ent_row(m@[i]@)) =~= te[i]
                && ent_row(m@[i]@).len() == n by {
                if i < r0 {
                    assert(m@[i] == prevm[i]);
                    assert(ent_row(prevm[i]@) =~= te[i]);
                } else {
                    assert(te[i].len() == n);
                }
            }
            assert forall|i: int, j: int| 0 <= i < r0 + 1 && 0 <= j < n implies cq_bounded(
                #[trigger] ent_row(m@[i]@)[j],
                coeff_limit(),
            ) by {
                if i < r0 {
                    assert(m@[i] == prevm[i]);
                    assert(cq_bounded(ent_row(prevm[i]@)[j], coeff_limit()));
                }
            }
        }
        r0 += 1;
    }
    let g = Gate { m, k: xg.k + yg.k };
    proof {
        assert(ent(g) =~= te) by {
            assert forall|i: int| 0 <= i < n implies ent(g)[i] =~= te[i] by {
                assert(ent(g)[i] == ent_row(g.m@[i]@));
            }
        }
        assert(sm_bounded(ent(g), coeff_limit())) by {
            assert forall|i: int, j: int|
                0 <= i < ent(g).len() && 0 <= j < ent(g)[i].len() implies cq_bounded(
                #[trigger] ent(g)[i][j],
                coeff_limit(),
            ) by {
                assert(ent(g)[i][j] == ent_row(g.m@[i]@)[j]);
            }
        }
        assert(sm_square(ent(g)));
        assert(n >= 1) by {
            assert((nx as int) * (ny as int) >= 1) by (nonlinear_arith)
                requires
                    nx >= 1,
                    ny >= 1,
            ;
        }
        assert(gate_wf(g));
        assert(tensor_ok(gv(*xg), gv(*yg)));
    }
    Some(g)
}

/// Success condition of a gate application: every amplitude of the new
/// state stays within the coefficient cap.
pub open spec fn vec_mul_ok(e: Seq<Seq<CQ>>, v: Seq<CQ>) -> bool {
    vec_bounded(sm_vec(e, v), coeff_limit())
}

/// Matrix-vector product; nothing when an amplitude of the result would
/// leave the representable range.
pub fn vec_mul(g: &Gate, v: &Vec<Quad>) -> (r: Option<Vec<Quad>>)
    requires
        gate_wf(*g),
        v@.len() == g.m@.len(),
        vec_bounded(qview(v@), coeff_limit()),
    ensures
        r is Some <==> vec_mul_ok(ent(*g), qview(v@)),
        match r {
            Some(w) => qview(w@) == sm_vec(ent(*g), qview(v@)) && w@.len() == v@.len()
                && vec_bounded(qview(w@), coeff_limit()),
            None => true,
        },
{
    let n = g.m.len();
    let ghost sv = sm_vec(ent(*g), qview(v@));
    let mut out: Vec<Quad> = Vec::new();
    let mut i: usize = 0;
    proof {
        assert forall|u: int, w: int|
            -0x8000_0000 <= u <= 0x8000_0000 && -0x8000_0000 <= w
                <= 0x8000_0000 implies -0x4000_0000_0000_0000 <= #[trigger] (u * w)
            <= 0x4000_0000_0000_0000 by {
            lemma_prod_bound(u, w, 0x8000_0000, 0x8000_0000);
        }
    }
    while i < n
        invariant
            i <= n,
            n == g.m@.len(),
            v@.len() == n,
            gate_wf(*g),
            vec_bounded(qview(v@), coeff_limit()),
            sv == sm_vec(ent(*g), qview(v@)),
            out@.len() == i,
            forall|u: int, w: int|
                -0x8000_0000 <= u <= 0x8000_0000 && -0x8000_0000 <= w
                    <= 0x8000_0000 ==> -0x4000_0000_0000_0000 <= #[trigger] (u * w)
                    <= 0x4000_0000_0000_0000,
            forall|r0: int| 0 <= r0 < i ==> #[trigger] qview(out@)[r0] == sv[r0] && cq_bounded(
                qview(out@)[r0],
                coeff_limit(),
            ),
        decreases n - i,
    {
        proof {
            assert(ent(*g)[i as int].len() == n);
            assert(g.m@[i as int]@.len() == n);
        }
        let row = &g.m[i];
        let mut aa: i128 = 0;
        let mut ab: i128 = 0;
        let mut ac: i128 = 0;
        let mut ad: i128 = 0;
        let mut j: usize = 0;
        while j < n
            invariant
                j <= n,
                i < n,
                n == g.m@.len(),
                v@.len() == n,
                gate_wf(*g),
                vec_bounded(qview(v@), coeff_limit()),
                row@ == g.m@[i as int]@,
                row@.len() == n,
                forall|u: int, w: int|
                    -0x8000_0000 <= u <= 0x8000_0000 && -0x8000_0000 <= w
                        <= 0x8000_0000 ==> -0x4000_0000_0000_0000 <= #[trigger] (u * w)
                        <= 0x4000_0000_0000_0000,
                (CQ { a: aa as int, b: ab as int, c: ac as int, d: ad as int }) == dot_pre(
                    ent(*g)[i as int],
                    qview(v@),
                    j as nat,
                ),
                cq_bounded(
                    (CQ { a: aa as int, b: ab as int, c: ac as int, d: ad as int }),
                    (j as int) * 0x1_0000_0000_0000_0000,
                ),
            decreases n - j,
        {
            proof {
                assert(ent(*g)[i as int][j as int] == row@[j as int]@);
                assert(cq_bounded(ent(*g)[i as int][j as int], coeff_limit()));
                assert(qview(v@)[j as int] == v@[j as int]@);
                assert(cq_bounded(qview(v@)[j as int], coeff_limit()));
                assert((j as int) * 0x1_0000_0000_0000_0000 <= 0x1000_0000
                    * 0x1_0000_0000_0000_0000) by (nonlinear_arith)
                    requires
                        0 <= j as int <= 0x1000_0000,
                ;
                assert((j as int + 1) * 0x1_0000_0000_0000_0000 == (j as int)
                    * 0x1_0000_0000_0000_0000 + 0x1_0000_0000_0000_0000) by (nonlinear_arith);
            }
            let x = &row[j];
            let y = &v[j];
            let xa = x.a as i128;
            let xb = x.b as i128;
            let xc = x.c as i128;
            let xd = x.d as i128;
            let ya = y.a as i128;
            let yb = y.b as i128;
            let yc = y.c as i128;
            let yd = y.d as i128;
            aa = aa + (xa * ya - xb * yd - xc * yc - xd * yb);
            ab = ab + (xa * yb + xb * ya - xc * yd - xd * yc);
            ac = ac + (xa * yc + xb * yb + xc * ya - xd * yd);
            ad = ad + (xa * yd + xb * yc + xc * yb + xd * ya);
            proof {
                assert(CQ { a: aa as int, b: ab as int, c: ac as int, d: ad as int } == cq_add(
                    dot_pre(ent(*g)[i as int], qview(v@), j as nat),
                    cq_mul(x@, y@),
                ));
            }
            j += 1;
        }
        proof {
            assert(CQ { a: aa as int, b: ab as int, c: ac as int, d: ad as int } == sv[i as int]);
        }
        if aa > 0x8000_0000 || aa < -0x8000_0000 || ab > 0x8000_0000 || ab < -0x8000_0000 || ac
            > 0x8000_0000 || ac < -0x8000_0000 || ad > 0x8000_0000 || ad < -0x8000_0000 {
            proof {
                assert(!cq_bounded(sv[i as int], coeff_limit()));
                assert(!vec_mul_ok(ent(*g), qview(v@)));
            }
            return None;
        }
        let ghost prev = out@;
        out.push(Quad { a: aa as i64, b: ab as i64, c: ac as i64, d: ad as i64 });
        proof {
            assert forall|r0: int| 0 <= r0 < i + 1 implies #[trigger] qview(out@)[r0] == sv[r0]
                && cq_bounded(qview(out@)[r0], coeff_limit()) by {
                if r0 < i {
                    assert(out@[r0] == prev[r0]);
                    assert(qview(prev)[r0] == sv[r0]);
                    assert(cq_bounded(qview(prev)[r0], coeff_limit()));
                } else {
                    assert(qview(out@)[r0] == out@[r0]@);
                }
            }
        }
        i += 1;
    }
    proof {
        assert(qview(out@) =~= sv);
        assert(vec_mul_ok(ent(*g), qview(v@))) by {
            assert forall|r0: int| 0 <= r0 < sv.len() implies cq_bounded(
                #[trigger] sv[r0],
                coeff_limit(),
            ) by {
                assert(sv[r0] == qview(out@)[r0]);
            }
        }
    }
    Some(out)
}

/// Conjugate transpose of a gate; inverts a unitary gate.
pub fn dagger(g: &Gate) -> (r: Gate)
    requires
        gate_wf(*g),
    ensures
        gate_wf(r),
        r.k == g.k,
        ent(r) == sm_dagger(ent(*g)),
        r.m@.len() == g.m@.len(),
{
    let n = g.m.len();
    let mut m: Vec<Vec<Quad>> = Vec::new();
    let mut i: usize = 0;
    while i < n
        invariant
            i <= n,
            n == g.m@.len(),
            gate_wf(*g),
            m@.len() == i,
            forall|r0: int| 0 <= r0 < i ==> (#[trigger] ent_row(m@[r0]@)) =~= sm_dagger(
                ent(*g),
            )[r0],
        decreases n - i,
    {
        let mut row: Vec<Quad> = Vec::new();
        let mut j: usize = 0;
        while j < n
            invariant
                j <= n,
                i < n,
                n == g.m@.len(),
                gate_wf(*g),
                row@.len() == j,
                forall|c: int| 0 <= c < j ==> ent_row(row@)[c] == sm_dagger(ent(*g))[i as int][c],
            decreases n - j,
        {
            proof {
                assert(ent(*g)[j as int].len() == n);
                assert(g.m@[j as int]@.len() == n);
            }
            let q = &g.m[j][i];
            proof {
                assert(ent(*g)[j as int][i as int] == q@);
                assert(cq_bounded(ent(*g)[j as int][i as int], coeff_limit()));
            }
            let ghost prev = row@;
            row.push(Quad { a: q.a, b: -q.d, c: -q.c, d: -q.b });
            proof {
                assert forall|c: int| 0 <= c < j + 1 implies ent_row(row@)[c] == sm_dagger(
                    ent(*g),
                )[i as int][c] by {
                    if c < j {
                        assert(row@[c] == prev[c]);
                        assert(ent_row(prev)[c] == sm_dagger(ent(*g))[i as int][c]);
                    } else {
                        assert(ent_row(row@)[j as int] == row@[j as int]@);
                        assert(ent_row(row@)[j as int] == cq_conj(ent(*g)[j as int][i as int]));
                        assert(sm_dagger(ent(*g))[i as int][j as int] == cq_conj(
                            ent(*g)[j as int][i as int],
                        ));
                    }
                }
            }
            j += 1;
        }
        m.push(row);
        i += 1;
    }
    let r = Gate { m, k: g.k };
    proof {
        assert(ent(r) =~= sm_dagger(ent(*g))) by {
            assert forall|r0: int| 0 <= r0 < n implies ent(r)[r0] =~= sm_dagger(ent(*g))[r0] by {
                assert(ent(r)[r0] == ent_row(r.m@[r0]@));
            }
        }
    }
    r
}

} // verus!
