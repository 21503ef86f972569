//! Number-theoretic toolkit: primality, perfect powers, gcd, modular
//! exponentiation, continued fractions, convergents, order extraction and
//! factor triviality checks.

use vstd::prelude::*;
use vstd::arithmetic::div_mod::{
    lemma_div_non_zero, lemma_div_nonincreasing, lemma_fundamental_div_mod,
    lemma_mod_multiples_basic, lemma_mul_mod_noop, lemma_mul_mod_noop_left,
    lemma_mul_mod_noop_right, lemma_small_mod,
};
use rand::Rng;
use vstd::arithmetic::power::{lemma_pow_adds, pow};
use vstd::arithmetic::power2::{lemma_pow2_unfold, pow2};

verus! {

/// Euclid's greatest common divisor, as a mathematical definition.
pub open spec fn gcd_spec(a: nat, b: nat) -> nat
    decreases b,
{
    if b == 0 {
        a
    } else {
        gcd_spec(b, a % b)
    }
}

/// A number is prime when it is at least 2 and no smaller number above 1
/// divides it.
pub open spec fn is_prime_spec(n: nat) -> bool {
    n >= 2 && forall|d: nat| 2 <= d < n ==> #[trigger] (n % d) != 0
}

/// Standard Euclidean algorithm.
pub fn gcd(a: u32, b: u32) -> (r: u32)
    ensures
        r == gcd_spec(a as nat, b as nat),
{
    let mut x = a;
    let mut y = b;
    while y != 0
        invariant
            gcd_spec(x as nat, y as nat) == gcd_spec(a as nat, b as nat),
        decreases y,
    {
        let t = x % y;
        x = y;
        y = t;
    }
    x
}

/// Parity test.
pub fn is_odd(n: u32) -> (r: bool)
    ensures
        r == (n % 2 == 1),
{
    if n % 2 == 0 {
        return false;
    }
    true
}

/// Integer square root by linear scan: the greatest `r` with `r * r <= n`.
fn isqrt(n: u32) -> (r: u32)
    ensures
        r * r <= n,
        n < (r + 1) * (r + 1),
        r <= 0x10000,
{
    let mut r: u32 = 0;
    loop
        invariant_except_break
            r * r <= n,
            r <= 0x10000,
        ensures
            r * r <= n,
            n < (r + 1) * (r + 1),
            r <= 0x10000,
        decreases n - r,
    {
        proof {
            assert((r as int + 1) * (r as int + 1) <= 0x2_0000_0000) by (nonlinear_arith)
                requires
                    r <= 0x10000,
            ;
        }
        let next: u64 = ((r as u64) + 1) * ((r as u64) + 1);
        if next > n as u64 {
            break;
        }
        proof {
            assert(r + 1 <= 0xffff) by (nonlinear_arith)
                requires
                    (r as int + 1) * (r as int + 1) <= n,
                    n < 0x1_0000_0000,
            ;
            assert(r < n) by (nonlinear_arith)
                requires
                    (r as int + 1) * (r as int + 1) <= n,
            ;
        }
        r = r + 1;
    }
    r
}

/// Every divisor of `n` pairs with a cofactor, and the smaller of the two
/// is at most the integer square root.
proof fn lemma_divisor_at_most_sqrt(n: nat, d: nat, s: nat)
    requires
        n >= 2,
        2 <= d < n,
        n % d == 0,
        s * s <= n,
        n < (s + 1) * (s + 1),
    ensures
        exists|e: nat| 2 <= e <= s && #[trigger] (n % e) == 0,
{
    let q = n / d;
    lemma_fundamental_div_mod(n as int, d as int);
    assert(n == d * q);
    assert(q >= 2) by (nonlinear_arith)
        requires
            n == d * q,
            d < n,
            d >= 2,
            n >= 2,
    ;
    if d <= s {
        assert(2 <= d <= s && n % d == 0);
    } else {
        assert(q <= s) by (nonlinear_arith)
            requires
                n == d * q,
                d >= s + 1,
                n < (s + 1) * (s + 1),
                q >= 2,
                s >= 0,
        ;
        assert(n % q == 0) by {
            lemma_mod_multiples_basic(d as int, q as int);
            assert(n as int == d as int * q as int);
        }
        assert(2 <= q <= s && n % q == 0);
    }
}

/// Trial division up to the integer square root, with even numbers
/// pre-filtered.
pub fn is_prime(n: u32) -> (r: bool)
    ensures
        r == is_prime_spec(n as nat),
{
    if n < 2 {
        return false;
    }
    if n == 2 {
        return true;
    }
    if n % 2 == 0 {
        assert(!is_prime_spec(n as nat)) by {
            assert(2 <= 2nat < n && n as nat % 2nat == 0);
        }
        return false;
    }
    let s = isqrt(n);
    assert(s < n) by (nonlinear_arith)
        requires
            s * s <= n,
            n >= 3,
    ;
    let mut i: u32 = 3;
    while i < s + 1
        invariant
            3 <= i,
            i <= s + 1 || i == 3,
            s <= 0x10000,
            s < n,
            n >= 3,
            forall|d: nat| 3 <= d < i ==> #[trigger] (n as nat % d) != 0,
        decreases s + 1 - i,
    {
        if n % i == 0 {
            assert(!is_prime_spec(n as nat)) by {
                assert(2 <= (i as nat) && (i as nat) < n && n as nat % (i as nat) == 0);
            }
            return false;
        }
        assert(n as nat % (i as nat) != 0);
        i += 1;
    }
    assert(is_prime_spec(n as nat)) by {
        assert forall|d: nat| 2 <= d < n implies #[trigger] (n as nat % d) != 0 by {
            if n as nat % d == 0 {
                lemma_divisor_at_most_sqrt(n as nat, d, s as nat);
                let e = choose|e: nat| 2 <= e <= s && #[trigger] (n as nat % e) == 0;
                if e == 2 {
                    assert(n as nat % 2 != 0) by {
                        assert(n % 2 == 1);
                    }
                } else {
                    assert(3 <= e < i);
                }
            }
        }
    }
    true
}

/// Modular exponentiation by linear repeated multiplication; used only for
/// small exponents while verifying order candidates.
pub fn modexp(a: u32, r: u32, n: u32) -> (res: u32)
    requires
        n >= 1,
        a < n,
    ensures
        a == 0 ==> res == 0,
        a != 0 && r == 0 ==> res == 1,
        a != 0 && r >= 1 ==> res as int == pow(a as int, r as nat) % (n as int),
{
    if a == 0 {
        return 0;
    }
    if r == 0 {
        return 1;
    }
    let mut p: u32 = a;
    let mut i: u32 = 1;
    proof {
        reveal_with_fuel(pow, 2);
        assert(pow(a as int, 1) == a);
        lemma_small_mod(a as nat, n as nat);
    }
    while i < r
        invariant
            1 <= i <= r,
            a < n,
            n >= 1,
            p < n,
            p as int == pow(a as int, i as nat) % (n as int),
        decreases r - i,
    {
        proof {
            assert((p as int) * (a as int) < 0x1_0000_0000_0000_0000) by (nonlinear_arith)
                requires
                    p < 0x1_0000_0000,
                    a < 0x1_0000_0000,
            ;
        }
        let pr: u64 = (p as u64) * (a as u64) % (n as u64);
        proof {
            reveal_with_fuel(pow, 2);
            lemma_mul_mod_noop_left(pow(a as int, i as nat), a as int, n as int);
            assert(pow(a as int, (i + 1) as nat) == a * pow(a as int, i as nat));
            assert(pow(a as int, i as nat) * a == a * pow(a as int, i as nat)) by (nonlinear_arith);
            assert((p as u64) * (a as u64) == (p as int) * (a as int)) by (nonlinear_arith)
                requires
                    p < 0x1_0000_0000,
                    a < 0x1_0000_0000,
            ;
        }
        p = pr as u32;
        i += 1;
    }
    p
}

/// Modular exponentiation of `a` to the power `2^j` by `j` repeated
/// squarings; the fast path used inside gate synthesis.
pub fn modexp2(a: u32, j: u32, n: u32) -> (res: u32)
    requires
        n >= 1,
    ensures
        a == 0 ==> res == 0,
        a != 0 && j == 0 ==> res == a % n,
        a != 0 && j >= 1 ==> res as int == pow(a as int, pow2(j as nat)) % (n as int),
{
    if a == 0 {
        return 0;
    }
    if j == 0 {
        return a % n;
    }
    let mut p: u32 = a;
    let mut i: u32 = 0;
    while i < j
        invariant
            i <= j,
            n >= 1,
            i == 0 ==> p == a,
            i >= 1 ==> p as int == pow(a as int, pow2(i as nat)) % (n as int) && p < n,
        decreases j - i,
    {
        proof {
            assert((p as int) * (p as int) < 0x1_0000_0000_0000_0000) by (nonlinear_arith)
                requires
                    p < 0x1_0000_0000,
            ;
        }
        let pr: u64 = (p as u64) * (p as u64) % (n as u64);
        proof {
            reveal_with_fuel(pow, 3);
            lemma_pow2_unfold((i + 1) as nat);
            lemma_pow_adds(a as int, pow2(i as nat), pow2(i as nat));
            if i == 0 {
                assert(pow2(0) == 1) by {
                    reveal_with_fuel(pow, 2);
                    assert(pow(2, 0) == 1);
                }
                assert(pow(a as int, 1) == a * pow(a as int, 0));
                lemma_mul_mod_noop(a as int, a as int, n as int);
                assert(pow(a as int, 2) == pow(a as int, 1) * pow(a as int, 1)) by {
                    lemma_pow_adds(a as int, 1, 1);
                }
            } else {
                lemma_mul_mod_noop(
                    pow(a as int, pow2(i as nat)),
                    pow(a as int, pow2(i as nat)),
                    n as int,
                );
            }
            assert(pr as int == ((p as int) * (p as int)) % (n as int));
            assert(pow2((i + 1) as nat) == pow2(i as nat) + pow2(i as nat));
            assert(pow(a as int, pow2((i + 1) as nat)) == pow(a as int, pow2(i as nat)) * pow(
                a as int,
                pow2(i as nat),
            ));
            if i == 0 {
                assert(pow(a as int, pow2(1)) == (a as int) * (a as int));
                assert(pr as int == pow(a as int, pow2(1)) % (n as int));
            } else {
                assert(pr as int == pow(a as int, pow2((i + 1) as nat)) % (n as int));
            }
            assert(pr < n as u64);
        }
        p = pr as u32;
        i += 1;
    }
    p
}

/// Number of binary digits of `n` (zero for zero).
pub open spec fn bitlen(n: nat) -> nat
    decreases n,
{
    if n == 0 {
        0
    } else {
        1 + bitlen(n / 2)
    }
}

/// `n` is a perfect power with base `b` and exponent `e`, both at least 2.
pub open spec fn perfect_power(n: nat, b: nat, e: nat) -> bool {
    b >= 2 && e >= 2 && pow(b as int, e) == n
}

proof fn lemma_bitlen_upper(n: nat)
    ensures
        n < pow2(bitlen(n)),
    decreases n,
{
    if n == 0 {
        assert(pow2(0) == 1) by {
            reveal_with_fuel(pow, 2);
        }
    } else {
        lemma_bitlen_upper(n / 2);
        lemma_pow2_unfold(bitlen(n));
        assert(n < 2 * pow2(bitlen(n / 2)));
    }
}

proof fn lemma_bitlen_from_bound(n: nat, k: nat)
    requires
        n < pow2(k),
    ensures
        bitlen(n) <= k,
    decreases n,
{
    if n > 0 {
        assert(k > 0) by {
            if k == 0 {
                assert(pow2(0) == 1) by {
                    reveal_with_fuel(pow, 2);
                }
            }
        }
        lemma_pow2_unfold(k);
        lemma_bitlen_from_bound(n / 2, (k - 1) as nat);
    }
}

/// Raising to a power is monotone in the base.
proof fn lemma_pow_base_monotone(b1: nat, b2: nat, e: nat)
    requires
        1 <= b1 <= b2,
    ensures
        pow(b1 as int, e) <= pow(b2 as int, e),
    decreases e,
{
    reveal_with_fuel(pow, 2);
    if e > 0 {
        lemma_pow_base_monotone(b1, b2, (e - 1) as nat);
        vstd::arithmetic::power::lemma_pow_positive(b1 as int, (e - 1) as nat);
        assert(b1 as int * pow(b1 as int, (e - 1) as nat) <= b2 as int * pow(
            b2 as int,
            (e - 1) as nat,
        )) by (nonlinear_arith)
            requires
                0 <= b1 <= b2,
                0 < pow(b1 as int, (e - 1) as nat) <= pow(b2 as int, (e - 1) as nat),
        ;
    }
}

/// A base of at least 2 raised to an exponent of at least the bit length
/// of `n` exceeds `n`.
proof fn lemma_large_exponent_exceeds(n: nat, b: nat, e: nat)
    requires
        b >= 2,
        e >= bitlen(n),
    ensures
        pow(b as int, e) > n,
{
    lemma_bitlen_upper(n);
    vstd::arithmetic::power::lemma_pow_increases(2, bitlen(n), e);
    lemma_pow_base_monotone(2, b, e);
    vstd::arithmetic::power2::lemma_pow2(bitlen(n));
    vstd::arithmetic::power2::lemma_pow2(e);
    assert(n < pow2(bitlen(n)) <= pow(2, e) <= pow(b as int, e));
}

/// Number of binary digits, computed by repeated halving.
pub(crate) fn bitlen_exec(n: u32) -> (c: u32)
    ensures
        c == bitlen(n as nat),
        c <= 32,
{
    proof {
        vstd::arithmetic::power2::lemma2_to64();
        lemma_bitlen_from_bound(n as nat, 32);
    }
    let mut x = n;
    let mut c: u32 = 0;
    while x > 0
        invariant
            c + bitlen(x as nat) == bitlen(n as nat),
            bitlen(n as nat) <= 32,
        decreases x,
    {
        x = x / 2;
        c += 1;
    }
    c
}

/// `b^e` when it is at most `cap`, and nothing when it exceeds `cap`.
fn pow_capped(b: u32, e: u32, cap: u32) -> (r: Option<u32>)
    requires
        b >= 1,
    ensures
        match r {
            Some(p) => p == pow(b as int, e as nat) && p <= cap,
            None => pow(b as int, e as nat) > cap,
        },
{
    proof {
        reveal_with_fuel(pow, 2);
    }
    let mut acc: u32 = 1;
    let mut i: u32 = 0;
    if acc > cap {
        proof {
            vstd::arithmetic::power::lemma_pow_positive(b as int, e as nat);
            lemma_pow_base_monotone(1, b as nat, e as nat);
            vstd::arithmetic::power::lemma1_pow(e as nat);
        }
        return None;
    }
    while i < e
        invariant
            i <= e,
            b >= 1,
            acc == pow(b as int, i as nat),
            acc <= cap,
        decreases e - i,
    {
        proof {
            assert((acc as int) * (b as int) < 0x1_0000_0000_0000_0000) by (nonlinear_arith)
                requires
                    acc < 0x1_0000_0000,
                    b < 0x1_0000_0000,
            ;
        }
        let wide: u64 = (acc as u64) * (b as u64);
        proof {
            reveal_with_fuel(pow, 2);
            lemma_pow_adds(b as int, (i + 1) as nat, (e - i - 1) as nat);
            assert(pow(b as int, (i + 1) as nat) == b * pow(b as int, i as nat));
            assert(b as int * (acc as int) == acc as int * (b as int)) by (nonlinear_arith);
        }
        if wide > cap as u64 {
            proof {
                vstd::arithmetic::power::lemma_pow_positive(b as int, (e - i - 1) as nat);
                assert(pow(b as int, e as nat) >= pow(b as int, (i + 1) as nat)) by (
                nonlinear_arith)
                    requires
                        pow(b as int, e as nat) == pow(b as int, (i + 1) as nat) * pow(
                            b as int,
                            (e - i - 1) as nat,
                        ),
                        pow(b as int, (i + 1) as nat) >= 0,
                        pow(b as int, (e - i - 1) as nat) >= 1,
                ;
            }
            return None;
        }
        acc = wide as u32;
        i += 1;
    }
    Some(acc)
}

/// Perfect-power detector: for exponents from the bit length of `n` down
/// to 2, test whether the integer root raised back gives exactly `n`; the
/// first (largest-exponent) match wins.
pub fn base_exp(n: u32) -> (res: (u32, u32, bool))
    ensures
        res.2 ==> perfect_power(n as nat, res.0 as nat, res.1 as nat),
        res.2 ==> forall|b: nat, e: nat| e > res.1 ==> !perfect_power(n as nat, b, e),
        !res.2 ==> res == (0u32, 0u32, false) && forall|b: nat, e: nat|
            !perfect_power(n as nat, b, e),
{
    let s = bitlen_exec(n);
    if s < 3 {
        proof {
            assert forall|b: nat, e: nat| !perfect_power(n as nat, b, e) by {
                if perfect_power(n as nat, b, e) {
                    lemma_large_exponent_exceeds(n as nat, b, e);
                }
            }
        }
        return (0, 0, false);
    }
    let mut e: u32 = s - 1;
    proof {
        assert forall|b: nat, e2: nat| e2 > e implies !(#[trigger] perfect_power(
            n as nat,
            b,
            e2,
        )) by {
            if perfect_power(n as nat, b, e2) {
                lemma_large_exponent_exceeds(n as nat, b, e2);
            }
        }
    }
    loop
        invariant_except_break
            2 <= e <= s - 1,
            s == bitlen(n as nat),
            3 <= s <= 32,
            forall|b: nat, e2: nat| e2 > e ==> !(#[trigger] perfect_power(n as nat, b, e2)),
        ensures
            forall|b: nat, e2: nat| !(#[trigger] perfect_power(n as nat, b, e2)),
        decreases e,
    {
        // find the integer e-th root of n by linear scan
        proof {
            assert(n >= 1) by {
                if n == 0 {
                    assert(bitlen(0nat) == 0);
                }
            }
            vstd::arithmetic::power::lemma1_pow(e as nat);
        }
        let mut b: u32 = 1;
        loop
            invariant_except_break
                b >= 1,
                e >= 2,
                b <= 0x10000,
                pow(b as int, e as nat) <= n,
            ensures
                b >= 1 && pow(b as int, e as nat) <= n && pow(b as int + 1, e as nat) > n,
            decreases n - b,
        {
            match pow_capped(b + 1, e, n) {
                Some(_) => {
                    proof {
                        assert(b + 1 <= 0x10000) by {
                            if b + 1 > 0x10000 {
                                assert(pow(b as int + 1, e as nat) >= (b as int + 1) * (b as int
                                    + 1)) by {
                                    reveal_with_fuel(pow, 3);
                                    lemma_pow_adds(b as int + 1, 2, (e - 2) as nat);
                                    vstd::arithmetic::power::lemma_pow_positive(
                                        b as int + 1,
                                        (e - 2) as nat,
                                    );
                                    assert(pow(b as int + 1, 2) == (b as int + 1) * ((b as int + 1)
                                        * 1));
                                    assert((b as int + 1) * (b as int + 1) * pow(
                                        b as int + 1,
                                        (e - 2) as nat,
                                    ) >= (b as int + 1) * (b as int + 1)) by (nonlinear_arith)
                                        requires
                                            pow(b as int + 1, (e - 2) as nat) >= 1,
                                            b >= 1,
                                    ;
                                }
                                assert((b as int + 1) * (b as int + 1) > 0x1_0000_0000) by (
                                nonlinear_arith)
                                    requires
                                        b + 1 > 0x10000,
                                ;
                            }
                        }
                        assert(b < n) by {
                            vstd::arithmetic::power::lemma_pow_increases(
                                (b + 1) as nat,
                                1,
                                e as nat,
                            );
                            assert(pow(b as int + 1, 1) == b + 1) by {
                                reveal_with_fuel(pow, 2);
                            }
                        }
                    }
                    b = b + 1;
                },
                None => {
                    break;
                },
            }
        }
        match pow_capped(b, e, n) {
            Some(p) => {
                if p == n {
                    proof {
                        assert(b >= 2) by {
                            if b == 1 {
                                vstd::arithmetic::power::lemma1_pow(e as nat);
                                assert(n == 1);
                                assert(bitlen(1nat) == 1) by {
                                    reveal_with_fuel(bitlen, 3);
                                }
                            }
                        }
                    }
                    return (b, e, true);
                }
            },
            None => {
                // unreachable: pow(b, e) <= n by the scan above
            },
        }
        proof {
            assert forall|b2: nat| !perfect_power(n as nat, b2, e as nat) by {
                if perfect_power(n as nat, b2, e as nat) {
                    if b2 <= b {
                        lemma_pow_base_monotone(b2, b as nat, e as nat);
                    } else {
                        lemma_pow_base_monotone((b + 1) as nat, b2, e as nat);
                    }
                }
            }
        }
        if e == 2 {
            proof {
                assert forall|b2: nat, e2: nat| !perfect_power(n as nat, b2, e2) by {
                    if perfect_power(n as nat, b2, e2) {
                        assert(e2 > 1);
                    }
                }
            }
            break;
        }
        e = e - 1;
    }
    (0, 0, false)
}

/// The multiplicative order of 7 modulo 15 is 4, so squaring past the
/// exponent `2^2` always yields 1: `7^(2^j) mod 15 == 1` for every `j >= 2`.
pub proof fn lemma_modexp2_stabilizes(j: nat)
    requires
        j >= 2,
    ensures
        pow(7, pow2(j)) % 15 == 1,
    decreases j,
{
    if j == 2 {
        reveal_with_fuel(pow, 5);
        assert(pow2(2) == 4) by {
            reveal_with_fuel(pow, 3);
            assert(pow(2, 2) == 2 * pow(2, 1));
            assert(pow(2, 1) == 2 * pow(2, 0));
        }
        assert(pow(7, 4) == 7 * pow(7, 3));
        assert(pow(7, 3) == 7 * pow(7, 2));
        assert(pow(7, 2) == 7 * pow(7, 1));
        assert(pow(7, 1) == 7 * pow(7, 0));
        assert(pow(7, 4) % 15 == 1);
    } else {
        lemma_modexp2_stabilizes((j - 1) as nat);
        lemma_pow2_unfold(j);
        lemma_pow_adds(7, pow2((j - 1) as nat), pow2((j - 1) as nat));
        lemma_mul_mod_noop(pow(7, pow2((j - 1) as nat)), pow(7, pow2((j - 1) as nat)), 15);
    }
}

/// Partial quotients of `num / den`, expanded by the Euclidean recurrence
/// and truncated as soon as the remainder falls within 1/1000 of zero.
pub open spec fn cf_spec(num: nat, den: nat) -> Seq<nat>
    decreases den,
{
    if den == 0 {
        Seq::empty()
    } else {
        let t = num / den;
        let rem = num % den;
        if 1000 * rem < den {
            seq![t]
        } else {
            seq![t] + cf_spec(den, rem)
        }
    }
}

/// Numerator and denominator of a continued fraction, by the backward
/// two-term recurrence.
pub open spec fn conv_spec(cf: Seq<nat>) -> (nat, nat)
    decreases cf.len(),
{
    if cf.len() == 0 {
        (0, 1)
    } else if cf.len() == 1 {
        (cf[0], 1)
    } else {
        let pq = conv_spec(cf.drop_first());
        (cf[0] * pq.0 + pq.1, pq.0)
    }
}

/// View of a quotient list as mathematical naturals.
pub open spec fn quots(s: Seq<u32>) -> Seq<nat> {
    s.map_values(|x: u32| x as nat)
}

/// Expands `num / den` into partial quotients.
pub fn continued_fraction(num: u32, den: u32) -> (list: Vec<u32>)
    requires
        den >= 1,
    ensures
        quots(list@) == cf_spec(num as nat, den as nat),
        list@.len() >= 1,
{
    let mut list: Vec<u32> = Vec::new();
    let mut a: u32 = num;
    let mut b: u32 = den;
    loop
        invariant_except_break
            1 <= b,
            cf_spec(num as nat, den as nat) == quots(list@) + cf_spec(a as nat, b as nat),
        ensures
            quots(list@) == cf_spec(num as nat, den as nat),
            list@.len() >= 1,
        decreases b,
    {
        let t = a / b;
        let rem = a % b;
        let ghost pre = list@;
        list.push(t);
        proof {
            assert(quots(list@) =~= quots(pre).push(t as nat));
        }
        if (1000 as u64) * (rem as u64) < b as u64 {
            proof {
                assert(cf_spec(a as nat, b as nat) =~= seq![(t as nat)]);
                assert(quots(list@) =~= cf_spec(num as nat, den as nat));
            }
            break;
        }
        proof {
            assert(cf_spec(a as nat, b as nat) =~= seq![(t as nat)] + cf_spec(
                b as nat,
                rem as nat,
            ));
            assert(quots(pre) + cf_spec(a as nat, b as nat) =~= quots(list@) + cf_spec(
                b as nat,
                rem as nat,
            ));
        }
        a = b;
        b = rem;
    }
    list
}

/// Convergent of the quotients `cf[0 .. end]`, by the original backward
/// loop, carried out in 64-bit arithmetic; the caller guarantees that every
/// intermediate convergent fits in 32 bits.
fn convergent_prefix(cf: &[u32], end: usize) -> (res: (u32, u32))
    requires
        1 <= end <= cf@.len(),
        forall|i: int| 0 <= i < end ==> (#[trigger] conv_spec(quots(cf@).subrange(i, end as int))).0
            <= u32::MAX,
    ensures
        (res.0 as nat, res.1 as nat) == conv_spec(quots(cf@).subrange(0, end as int)),
{
    if end == 1 {
        return (cf[0], 1);
    }
    let mut s: u32 = 1;
    let mut r: u32 = cf[end - 1];
    proof {
        assert(quots(cf@).subrange(end - 1, end as int) =~= seq![(cf@[end - 1] as nat)]);
    }
    let mut i: usize = 2;
    while i < end
        invariant
            2 <= i <= end,
            end <= cf@.len(),
            r as nat == conv_spec(quots(cf@).subrange(end - i + 1, end as int)).0,
            s as nat == conv_spec(quots(cf@).subrange(end - i + 1, end as int)).1,
            forall|k: int| 0 <= k < end ==> (#[trigger] conv_spec(
                quots(cf@).subrange(k, end as int),
            )).0 <= u32::MAX,
        decreases end - i,
    {
        let tmp = s;
        proof {
            assert((cf@[end - i] as int) * (r as int) + (tmp as int) < 0x1_0000_0000_0000_0000)
                by (nonlinear_arith)
                requires
                    cf@[end - i] as int <= 0xffff_ffff,
                    r as int <= 0xffff_ffff,
                    tmp as int <= 0xffff_ffff,
            ;
            assert(quots(cf@).subrange(end - i, end as int).drop_first() =~= quots(cf@).subrange(
                end - i + 1,
                end as int,
            ));
        }
        let wide: u64 = (cf[end - i] as u64) * (r as u64) + (tmp as u64);
        s = r;
        proof {
            assert(conv_spec(quots(cf@).subrange(end - i, end as int)).0 <= u32::MAX);
        }
        r = wide as u32;
        i += 1;
    }
    proof {
        assert(quots(cf@).subrange(0, end as int).drop_first() =~= quots(cf@).subrange(
            1,
            end as int,
        ));
        assert((cf@[0] as int) * (r as int) + (s as int) < 0x1_0000_0000_0000_0000)
            by (nonlinear_arith)
            requires
                cf@[0] as int <= 0xffff_ffff,
                r as int <= 0xffff_ffff,
                s as int <= 0xffff_ffff,
        ;
        assert(conv_spec(quots(cf@).subrange(0, end as int)).0 <= u32::MAX);
    }
    let wide: u64 = (cf[0] as u64) * (r as u64) + (s as u64);
    ((wide as u32), r)
}

/// Numerator and denominator, in lowest terms, of a continued fraction
/// given by its partial quotients.
pub fn convergent(cf: &[u32]) -> (res: (u32, u32))
    requires
        cf@.len() >= 1,
        forall|i: int| 0 <= i < cf@.len() ==> (#[trigger] conv_spec(
            quots(cf@).subrange(i, cf@.len() as int),
        )).0 <= u32::MAX,
    ensures
        (res.0 as nat, res.1 as nat) == conv_spec(quots(cf@)),
{
    let len = cf.len();
    let res = convergent_prefix(cf, len);
    proof {
        assert(quots(cf@).subrange(0, len as int) =~= quots(cf@));
    }
    res
}

/// The greatest common divisor is symmetric.
pub proof fn lemma_gcd_comm(a: nat, b: nat)
    ensures
        gcd_spec(a, b) == gcd_spec(b, a),
{
    if a == 0 && b == 0 {
    } else if a == 0 {
        lemma_small_mod(0, b);
    } else if b == 0 {
        lemma_small_mod(0, a);
    } else if a < b {
        lemma_small_mod(a, b);
        assert(gcd_spec(a, b) == gcd_spec(b, a % b));
    } else if b < a {
        lemma_small_mod(b, a);
        assert(gcd_spec(b, a) == gcd_spec(a, b % a));
    } else {
        assert(a % b == 0) by {
            lemma_mod_multiples_basic(1, b as int);
        }
    }
}

/// The greatest common divisor is positive and divides both arguments.
pub proof fn lemma_gcd_divides(a: nat, b: nat)
    requires
        a > 0 || b > 0,
    ensures
        gcd_spec(a, b) > 0,
        a % gcd_spec(a, b) == 0,
        b % gcd_spec(a, b) == 0,
    decreases b,
{
    if b == 0 {
        assert(a % a == 0) by {
            lemma_mod_multiples_basic(1, a as int);
        }
        lemma_small_mod(0, a);
    } else {
        lemma_gcd_divides(b, a % b);
        let g = gcd_spec(b, a % b);
        lemma_fundamental_div_mod(a as int, b as int);
        let q = a as int / b as int;
        assert(a as int == b * q + ((a % b) as int));
        assert((b * q) % (g as int) == 0) by {
            lemma_mul_mod_noop_left(b as int, q, g as int);
            assert(((b as int) % (g as int)) * q == 0) by (nonlinear_arith)
                requires
                    (b as int) % (g as int) == 0,
            ;
            lemma_small_mod(0, g);
        }
        assert(a % g == 0) by {
            vstd::arithmetic::div_mod::lemma_add_mod_noop(
                b * q,
                (a % b) as int,
                g as int,
            );
            lemma_small_mod(0, g);
        }
    }
}

/// Bezout: the greatest common divisor is an integer combination of the
/// arguments.
pub proof fn lemma_bezout(a: nat, b: nat)
    ensures
        exists|u: int, v: int| #[trigger] (u * a) + #[trigger] (v * b) == gcd_spec(a, b),
    decreases b,
{
    if b == 0 {
        assert(1int * a + 0int * b == gcd_spec(a, b)) by (nonlinear_arith)
            requires
                gcd_spec(a, b) == a,
        ;
    } else {
        lemma_bezout(b, a % b);
        let (u2, v2) = choose|u2: int, v2: int|
            #[trigger] (u2 * b) + #[trigger] (v2 * ((a % b) as nat)) == gcd_spec(b, a % b);
        lemma_fundamental_div_mod(a as int, b as int);
        let q = a as int / b as int;
        assert((a % b) as int == a - b * q);
        let u = v2;
        let v = u2 - v2 * q;
        assert(u * a + v * b == gcd_spec(a, b)) by (nonlinear_arith)
            requires
                u2 * b + v2 * ((a % b) as int) == gcd_spec(a, b),
                (a % b) as int == a - b * q,
                u == v2,
                v == u2 - v2 * q,
        ;
    }
}

/// If some integer combination of `c` and `n` is 1, they are coprime.
pub proof fn lemma_combination_coprime(c: nat, n: nat, u: int, v: int)
    requires
        n >= 1,
        u * c + v * n == 1,
    ensures
        gcd_spec(c, n) == 1,
{
    lemma_gcd_divides(c, n);
    let g = gcd_spec(c, n);
    assert((u * c) % (g as int) == 0) by {
        lemma_mul_mod_noop_right(u, c as int, g as int);
        assert(u * ((c as int) % (g as int)) == 0) by (nonlinear_arith)
            requires
                (c as int) % (g as int) == 0,
        ;
        lemma_small_mod(0, g);
    }
    assert((v * n) % (g as int) == 0) by {
        lemma_mul_mod_noop_right(v, n as int, g as int);
        assert(v * ((n as int) % (g as int)) == 0) by (nonlinear_arith)
            requires
                (n as int) % (g as int) == 0,
        ;
        lemma_small_mod(0, g);
    }
    assert(1int % (g as int) == 0) by {
        vstd::arithmetic::div_mod::lemma_add_mod_noop(u * c, v * n, g as int);
        lemma_small_mod(0, g);
    }
    if g >= 2 {
        lemma_small_mod(1, g);
    }
}

/// A product of residues coprime to `n` is, reduced, still coprime to
/// `n`.
pub proof fn lemma_coprime_mul_mod(x: nat, y: nat, n: nat)
    requires
        n >= 1,
        gcd_spec(x, n) == 1,
        gcd_spec(y, n) == 1,
    ensures
        gcd_spec((x * y) % n, n) == 1,
{
    lemma_bezout(x, n);
    lemma_bezout(y, n);
    let (u1, v1) = choose|u1: int, v1: int| #[trigger] (u1 * x) + #[trigger] (v1 * n) == 1;
    let (u2, v2) = choose|u2: int, v2: int| #[trigger] (u2 * y) + #[trigger] (v2 * n) == 1;
    lemma_fundamental_div_mod((x * y) as int, n as int);
    let q = (x * y) as int / n as int;
    let r = ((x * y) % n) as int;
    assert(r == x * y - n * q);
    let uu = u1 * u2;
    let w = u1 * x * v2 + v1 * u2 * y + v1 * v2 * n;
    let pa = u1 * x;
    let pb = v1 * n;
    let pc = u2 * y;
    let pd = v2 * n;
    assert(pa * pc + pa * pd + pb * pc + pb * pd == 1) by (nonlinear_arith)
        requires
            pa + pb == 1,
            pc + pd == 1,
    ;
    assert(uu * (x * y) == pa * pc) by (nonlinear_arith)
        requires
            uu == u1 * u2,
            pa == u1 * x,
            pc == u2 * y,
    ;
    assert(pa * pd == (u1 * x * v2) * n) by (nonlinear_arith)
        requires
            pa == u1 * x,
            pd == v2 * n,
    ;
    assert(pb * pc == (v1 * u2 * y) * n) by (nonlinear_arith)
        requires
            pb == v1 * n,
            pc == u2 * y,
    ;
    assert(pb * pd == (v1 * v2 * n) * n) by (nonlinear_arith)
        requires
            pb == v1 * n,
            pd == v2 * n,
    ;
    assert(w * n == (u1 * x * v2) * n + (v1 * u2 * y) * n + (v1 * v2 * n) * n) by (
    nonlinear_arith)
        requires
            w == u1 * x * v2 + v1 * u2 * y + v1 * v2 * n,
    ;
    assert(w * n == pa * pd + pb * pc + pb * pd);
    assert(uu * (x * y) + w * n == 1);
    let vv = w + uu * q;
    assert(uu * r + vv * n == 1) by (nonlinear_arith)
        requires
            uu * (x * y) + w * n == 1,
            r == x * y - n * q,
            vv == w + uu * q,
    ;
    lemma_combination_coprime(((x * y) % n) as nat, n, uu, vv);
}

/// Multiplication by a residue coprime to `n` is injective modulo `n`.
pub proof fn lemma_coprime_cancel(c: nat, n: nat, k1: nat, k2: nat)
    requires
        n >= 1,
        gcd_spec(c, n) == 1,
        k1 < n,
        k2 < n,
        (c * k1) % n == (c * k2) % n,
    ensures
        k1 == k2,
{
    lemma_bezout(c, n);
    let (u, v) = choose|u: int, v: int| #[trigger] (u * c) + #[trigger] (v * n) == 1;
    assert forall|k: nat| k < n implies (u * ((#[trigger] ((c * k) % n)) as int)) % (n as int)
        == k by {
        lemma_fundamental_div_mod((c * k) as int, n as int);
        let q = (c * k) as int / n as int;
        let r = ((c * k) % n) as int;
        assert(r == c * k - n * q);
        let s0 = -(v * (k as int) + u * q);
        assert(u * r == n * s0 + k) by (nonlinear_arith)
            requires
                u * c + v * n == 1,
                r == c * k - n * q,
                s0 == -(v * (k as int) + u * q),
        ;
        vstd::arithmetic::div_mod::lemma_mod_multiples_vanish(s0, k as int, n as int);
        lemma_small_mod(k, n);
    }
    assert((u * (((c * k1) % n) as int)) % (n as int) == k1);
    assert((u * (((c * k2) % n) as int)) % (n as int) == k2);
}

/// Interior partial quotients of a Euclidean expansion are at least 1.
proof fn lemma_cf_entries_pos(num: nat, den: nat, i: int)
    requires
        den >= 1,
        1 <= i < cf_spec(num, den).len(),
    ensures
        cf_spec(num, den)[i] >= 1,
    decreases den,
{
    let rem = num % den;
    assert(cf_spec(num, den) == seq![(num / den)] + cf_spec(den, rem));
    assert(cf_spec(num, den)[i] == cf_spec(den, rem)[i - 1]);
    if i == 1 {
        assert(rem >= 1);
        assert(cf_spec(den, rem)[0] == den / rem);
        lemma_div_non_zero(den as int, rem as int);
    } else {
        lemma_cf_entries_pos(den, rem, i - 1);
    }
}

/// Denominators in the backward recurrence are positive as long as the
/// interior quotients are.
proof fn lemma_conv_pos(s: Seq<nat>)
    requires
        s.len() >= 1,
        forall|i: int| 1 <= i < s.len() ==> s[i] >= 1,
    ensures
        conv_spec(s).1 >= 1,
        s.len() >= 2 ==> conv_spec(s).0 >= 1,
    decreases s.len(),
{
    if s.len() >= 2 {
        let d = s.drop_first();
        assert(forall|i: int| 1 <= i < d.len() ==> d[i] == s[i + 1] && d[i] >= 1);
        assert(d[0] == s[1] && d[0] >= 1);
        lemma_conv_pos(d);
        if d.len() == 1 {
            assert(conv_spec(d).0 == d[0]);
        }
        assert(conv_spec(s).0 == s[0] * conv_spec(d).0 + conv_spec(d).1);
        assert(s[0] * conv_spec(d).0 >= 0);
    }
}

/// Convergents of a leading stretch of the expansion of `num / den` stay
/// within `num` and `den`.
proof fn lemma_cf_take_bounds(num: nat, den: nat, end: int)
    requires
        den >= 1,
        1 <= end <= cf_spec(num, den).len(),
    ensures
        conv_spec(cf_spec(num, den).subrange(0, end)).0 <= num,
        conv_spec(cf_spec(num, den).subrange(0, end)).1 <= den,
    decreases den,
{
    let t = num / den;
    let rem = num % den;
    if end == 1 {
        assert(cf_spec(num, den).subrange(0, 1) =~= seq![t]);
        lemma_div_nonincreasing(num as int, den as int);
    } else {
        let cf2 = cf_spec(den, rem);
        assert(cf_spec(num, den) == seq![t] + cf2);
        assert(rem >= 1);
        assert(cf_spec(num, den).subrange(0, end).drop_first() =~= cf2.subrange(0, end - 1));
        lemma_cf_take_bounds(den, rem, end - 1);
        let p = conv_spec(cf2.subrange(0, end - 1)).0;
        let q = conv_spec(cf2.subrange(0, end - 1)).1;
        assert(conv_spec(cf_spec(num, den).subrange(0, end)) == (t * p + q, p));
        lemma_fundamental_div_mod(num as int, den as int);
        assert(t * p <= t * den) by (nonlinear_arith)
            requires
                p <= den,
                t >= 0,
        ;
        assert(t * den == den * t) by (nonlinear_arith);
        assert(q <= rem);
        assert(t * p + q <= num);
    }
}

/// Convergents of any stretch of the expansion of `num / den` fit within
/// the starting numerator and denominator.
proof fn lemma_cf_sub_bounds(num: nat, den: nat, i: int, end: int)
    requires
        den >= 1,
        0 <= i < end <= cf_spec(num, den).len(),
    ensures
        conv_spec(cf_spec(num, den).subrange(i, end)).0 <= if i == 0 {
            num
        } else {
            den
        },
        conv_spec(cf_spec(num, den).subrange(i, end)).1 <= den,
    decreases i,
{
    if i == 0 {
        lemma_cf_take_bounds(num, den, end);
    } else {
        let t = num / den;
        let rem = num % den;
        assert(cf_spec(num, den) == seq![t] + cf_spec(den, rem));
        assert(rem >= 1);
        assert(cf_spec(num, den).subrange(i, end) =~= cf_spec(den, rem).subrange(i - 1, end - 1));
        lemma_cf_sub_bounds(den, rem, i - 1, end - 1);
    }
}

/// Value of a bit string read most-significant-bit first; any character
/// other than '0' counts as a set bit.
pub open spec fn bits_value(bin: Seq<char>) -> nat
    decreases bin.len(),
{
    if bin.len() == 0 {
        0
    } else {
        2 * bits_value(bin.drop_last()) + (if bin.last() != '0' {
            1nat
        } else {
            0nat
        })
    }
}

/// Measured bits as the fraction `value / 2^len`: each bit at 0-indexed
/// position `i` contributes `2^-(i+1)`.
pub fn to_fraction(bin: &[char]) -> (res: (u32, u32))
    requires
        bin@.len() <= 31,
    ensures
        res.0 == bits_value(bin@),
        res.1 == pow2(bin@.len()),
        res.0 < res.1,
{
    proof {
        vstd::arithmetic::power2::lemma2_to64();
    }
    let len = bin.len();
    let mut num: u32 = 0;
    let mut den: u32 = 1;
    let mut i: usize = 0;
    while i < len
        invariant
            i <= len,
            len == bin@.len() <= 31,
            num == bits_value(bin@.subrange(0, i as int)),
            den == pow2(i as nat),
            num < den,
            den <= 0x8000_0000,
        decreases len - i,
    {
        proof {
            assert(bin@.subrange(0, i + 1).drop_last() =~= bin@.subrange(0, i as int));
            assert(bin@.subrange(0, i + 1).last() == bin@[i as int]);
            lemma_pow2_unfold((i + 1) as nat);
            vstd::arithmetic::power2::lemma2_to64();
            assert(den <= 0x4000_0000) by {
                if i < 30 {
                    vstd::arithmetic::power2::lemma_pow2_strictly_increases(i as nat, 30);
                }
            }
        }
        let b = bin[i];
        num = num * 2 + (if b != '0' { 1 } else { 0 });
        den = den * 2;
        i += 1;
    }
    proof {
        assert(bin@.subrange(0, len as int) =~= bin@);
    }
    (num, den)
}

/// The denominator of the convergent of the quotients `cfn[0 ..= i]` is a
/// verified multiplicative order of `a` modulo `n`.
pub open spec fn order_hit(a: nat, n: nat, cfn: Seq<nat>, i: int) -> bool {
    pow(a as int, conv_spec(cfn.subrange(0, i + 1)).1) % (n as int) == 1
}

/// Turns measured bits into a fraction, expands it as a continued
/// fraction, and scans its prefixes for the first convergent `s / r` whose
/// denominator satisfies `a^r mod n == 1`; falls back to the convergent of
/// the whole expansion, unverified, when no prefix matches.
pub fn find_order(a: u32, n: u32, bin: &[char]) -> (res: (u32, u32, bool))
    requires
        n >= 1,
        a < n,
        bin@.len() <= 31,
    ensures
        bin@.len() == 0 ==> res == (0u32, 1u32, false),
        bin@.len() >= 1 ==> ({
            let cfn = cf_spec(bits_value(bin@), pow2(bin@.len()));
            &&& res.2 == exists|i: int|
                0 <= i < cfn.len() && order_hit(a as nat, n as nat, cfn, i)
            &&& res.2 ==> exists|i: int|
                {
                    &&& 0 <= i < cfn.len()
                    &&& order_hit(a as nat, n as nat, cfn, i)
                    &&& forall|j: int| 0 <= j < i ==> !order_hit(a as nat, n as nat, cfn, j)
                    &&& res.0 as nat == conv_spec(cfn.subrange(0, i + 1)).0
                    &&& res.1 as nat == conv_spec(cfn.subrange(0, i + 1)).1
                }
            &&& !res.2 ==> res.0 as nat == conv_spec(cfn).0 && res.1 as nat == conv_spec(cfn).1
        }),
{
    if bin.is_empty() {
        return (0, 1, false);
    }
    let (num, den) = to_fraction(bin);
    let ghost cfn = cf_spec(num as nat, den as nat);
    let cf = continued_fraction(num, den);
    let len = cf.len();
    proof {
        assert forall|i: int, end: int| 0 <= i < end <= len implies (#[trigger] conv_spec(
            quots(cf@).subrange(i, end),
        )).0 <= u32::MAX && conv_spec(quots(cf@).subrange(i, end)).1 <= u32::MAX by {
            lemma_cf_sub_bounds(num as nat, den as nat, i, end);
        }
        assert forall|end: int| 1 <= end <= len implies conv_spec(
            #[trigger] quots(cf@).subrange(0, end),
        ).1 >= 1 by {
            assert forall|k: int| 1 <= k < end implies quots(cf@).subrange(0, end)[k] >= 1 by {
                lemma_cf_entries_pos(num as nat, den as nat, k);
            }
            lemma_conv_pos(quots(cf@).subrange(0, end));
        }
    }
    let mut i: usize = 0;
    while i < len
        invariant
            i <= len,
            len == cf@.len(),
            n >= 1,
            a < n,
            bin@.len() >= 1,
            cfn == quots(cf@),
            cfn == cf_spec(bits_value(bin@), pow2(bin@.len())),
            forall|j: int| 0 <= j < i ==> !order_hit(a as nat, n as nat, cfn, j),
            forall|k: int, end: int| 0 <= k < end <= len ==> (#[trigger] conv_spec(
                quots(cf@).subrange(k, end),
            )).0 <= u32::MAX && conv_spec(quots(cf@).subrange(k, end)).1 <= u32::MAX,
            forall|end: int| 1 <= end <= len ==> conv_spec(
                #[trigger] quots(cf@).subrange(0, end),
            ).1 >= 1,
        decreases len - i,
    {
        let pr = convergent_prefix(&cf, i + 1);
        let s0 = pr.0;
        let r0 = pr.1;
        proof {
            assert(r0 as nat == conv_spec(quots(cf@).subrange(0, i as int + 1)).1);
            assert(r0 >= 1);
            if a == 0 {
                vstd::arithmetic::power::lemma0_pow(r0 as nat);
                lemma_small_mod(0, n as nat);
                assert(pow(a as int, r0 as nat) % (n as int) == 0);
            }
        }
        let m = modexp(a, r0, n);
        proof {
            assert(quots(cf@).subrange(0, i as int + 1) == cfn.subrange(0, i as int + 1)) by {
                assert(cfn == quots(cf@));
            }
            if a != 0 {
                assert(m as int == pow(a as int, r0 as nat) % (n as int));
            }
            assert((m == 1) == order_hit(a as nat, n as nat, cfn, i as int));
        }
        if m == 1 {
            return (s0, r0, true);
        }
        i += 1;
    }
    let pr = convergent_prefix(&cf, len);
    proof {
        assert(quots(cf@).subrange(0, len as int) =~= quots(cf@));
    }
    (pr.0, pr.1, false)
}

/// Relies on rand::Rng::gen_range through rand::thread_rng: returns a
/// uniform value in the half-open range, and panics only on an empty
/// range, which the precondition excludes.
#[verifier::external_body]
fn sample_range(lo: u32, hi: u32) -> (r: u32)
    requires
        lo < hi,
    ensures
        lo <= r < hi,
{
    rand::thread_rng().gen_range(lo..hi)
}

/// Draws random candidates in `[2, n-2]` until one is coprime to `n`; if a
/// bounded number of draws all fail, falls back to 2, which is coprime to
/// every odd modulus.
pub fn coprime(n: u32) -> (a: u32)
    requires
        n >= 5,
        n % 2 == 1,
    ensures
        2 <= a <= n - 2,
        gcd_spec(n as nat, a as nat) == 1,
{
    let mut tries: u32 = 0;
    while tries < 64
        invariant
            n >= 5,
        decreases 64 - tries,
    {
        let a = sample_range(2, n - 1);
        if gcd(n, a) == 1 {
            return a;
        }
        tries += 1;
    }
    proof {
        reveal_with_fuel(gcd_spec, 4);
        assert(gcd_spec(n as nat, 2) == gcd_spec(2, (n as nat) % 2));
        assert((n as nat) % 2 == 1);
    }
    2
}

/// `p` is a non-trivial factor of `n` when it lies strictly between 1 and
/// `n` and divides `n`.
pub open spec fn nontrivial_factor(n: nat, p: nat) -> bool {
    1 < p < n && n % p == 0
}

/// True unless at least one candidate in `factor` is a non-trivial factor
/// of `n`.
pub fn is_trivial(n: u32, factor: &[u32]) -> (r: bool)
    ensures
        r == !(exists|i: int|
            0 <= i < factor@.len() && nontrivial_factor(n as nat, #[trigger] factor@[i] as nat)),
{
    let len = factor.len();
    let mut idx: usize = 0;
    while idx < len
        invariant
            len == factor@.len(),
            idx <= len,
            forall|i: int| 0 <= i < idx ==> !nontrivial_factor(n as nat, #[trigger] factor@[i] as nat),
        decreases len - idx,
    {
        let p = factor[idx];
        if 1 < p && p < n && n % p == 0 {
            assert(nontrivial_factor(n as nat, factor@[idx as int] as nat));
            return false;
        }
        idx += 1;
    }
    true
}

} // verus!
