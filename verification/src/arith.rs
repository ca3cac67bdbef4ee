//! Modular arithmetic on residues held as `u128` values.
//!
//! A field element of F_m is the canonical representative `x` with
//! `0 <= x < m`.  All operations state their result exactly as the
//! Euclidean remainder of the corresponding integer operation.

use vstd::prelude::*;
use vstd::arithmetic::div_mod::{
    lemma_small_mod, lemma_mod_bound, lemma_add_mod_noop, lemma_add_mod_noop_right,
    lemma_sub_mod_noop, lemma_mod_add_multiples_vanish, lemma_mod_sub_multiples_vanish,
    lemma_mul_mod_noop_left, lemma_mul_mod_noop_right, lemma_mul_mod_noop_general,
};
use vstd::arithmetic::mul::{lemma_mul_is_distributive_add_other_way, lemma_mul_is_associative};

verus! {

/// Largest modulus the arithmetic accepts: sums of two residues must fit in a `u128`.
pub open spec fn modulus_bound() -> int {
    0x8000_0000_0000_0000_0000_0000_0000_0000
}

/// Residue sum: `(a + b) mod m`.
pub open spec fn fadd(a: int, b: int, m: int) -> int {
    (a + b) % m
}

/// Residue difference: `(a - b) mod m` (Euclidean, hence in `[0, m)`).
pub open spec fn fsub(a: int, b: int, m: int) -> int {
    (a - b) % m
}

/// Residue product: `(a * b) mod m`.
pub open spec fn fmul(a: int, b: int, m: int) -> int {
    (a * b) % m
}

/// Residue power: `a^e mod m`.
pub open spec fn fpow(a: int, e: nat, m: int) -> int
    decreases e,
{
    if e == 0 {
        1int % m
    } else {
        (a * fpow(a, (e - 1) as nat, m)) % m
    }
}

/// The balanced representative of a residue: the integer of least absolute
/// value (ties going to the positive side) that is congruent to `x` mod `m`.
pub open spec fn bal(x: int, m: int) -> int {
    if 2 * x > m {
        x - m
    } else {
        x
    }
}

/// Absolute value of an integer.
pub open spec fn abs_int(x: int) -> int {
    if x < 0 {
        -x
    } else {
        x
    }
}

pub proof fn lemma_fpow_bound(a: int, e: nat, m: int)
    requires
        m >= 1,
    ensures
        0 <= fpow(a, e, m) < m,
    decreases e,
{
    if e == 0 {
        lemma_mod_bound(1, m);
    } else {
        lemma_fpow_bound(a, (e - 1) as nat, m);
        lemma_mod_bound(a * fpow(a, (e - 1) as nat, m), m);
    }
}

/// Powers compose: squaring the base halves the exponent.
pub proof fn lemma_fpow_square(b: int, e: nat, m: int)
    requires
        m >= 1,
    ensures
        fpow(fmul(b, b, m), e, m) == fpow(b, 2 * e, m),
    decreases e,
{
    if e == 0 {
    } else {
        lemma_fpow_square(b, (e - 1) as nat, m);
        let s = fmul(b, b, m);
        let p2 = fpow(b, (2 * e - 2) as nat, m);
        // fpow(b, 2e) == (b * (b * p2) % m) % m == (b * b * p2) % m == (s * p2) % m
        assert(fpow(b, (2 * e - 1) as nat, m) == (b * p2) % m);
        lemma_mul_mod_noop_right(b, b * p2, m);
        lemma_mul_is_associative(b, b, p2);
        assert(fpow(b, 2 * e, m) == (b * ((b * p2) % m)) % m);
        assert((b * ((b * p2) % m)) % m == (b * (b * p2)) % m);
        assert((b * (b * p2)) % m == ((b * b) * p2) % m);
        lemma_mul_mod_noop_left(b * b, p2, m);
        assert((s * p2) % m == ((b * b) * p2) % m);
        lemma_mul_mod_noop_right(s, p2, m);
        assert(fpow(s, e, m) == (s * fpow(s, (e - 1) as nat, m)) % m);
        assert(fpow(s, (e - 1) as nat, m) == fpow(b, (2 * e - 2) as nat, m));
    }
}

/// A residue and its balanced representative are congruent.
pub proof fn lemma_bal_congruent(x: int, m: int)
    requires
        0 < m,
        0 <= x < m,
    ensures
        bal(x, m) % m == x % m,
{
    if 2 * x > m {
        lemma_mod_sub_multiples_vanish(x, m);
    }
}

/// When the balanced representatives of two residues are together smaller
/// than half the modulus, balancing distributes over the modular sum.
pub proof fn lemma_bal_add(x: int, y: int, m: int)
    requires
        0 < m,
        0 <= x < m,
        0 <= y < m,
        2 * (abs_int(bal(x, m)) + abs_int(bal(y, m))) < m,
    ensures
        bal(fadd(x, y, m), m) == bal(x, m) + bal(y, m),
{
    let bx = bal(x, m);
    let by = bal(y, m);
    let s = bx + by;
    lemma_bal_congruent(x, m);
    lemma_bal_congruent(y, m);
    lemma_small_mod(x as nat, m as nat);
    lemma_small_mod(y as nat, m as nat);
    lemma_add_mod_noop(bx, by, m);
    lemma_add_mod_noop(x, y, m);
    assert(s % m == (x + y) % m);
    if s >= 0 {
        lemma_small_mod(s as nat, m as nat);
        assert(bal(s % m, m) == s);
    } else {
        lemma_mod_add_multiples_vanish(s, m);
        lemma_small_mod((s + m) as nat, m as nat);
        assert(s % m == s + m);
        assert(2 * (s + m) > m);
        assert(bal(s % m, m) == s);
    }
}

/// A balanced representative never exceeds half the modulus in magnitude,
/// and reaches it only when the modulus is even.
pub proof fn lemma_bal_half(x: int, m: int)
    requires
        0 < m,
        0 <= x < m,
    ensures
        2 * abs_int(bal(x, m)) <= m,
        2 * abs_int(bal(x, m)) == m ==> m % 2 == 0,
{
    if 2 * x > m {
        assert(bal(x, m) == x - m);
        if 2 * (m - x) == m {
            assert(m == 2 * (m - x));
        }
    } else {
        if 2 * x == m {
            assert(m == 2 * x);
        }
    }
}

/// A small integer is the balanced representative of its own residue.
pub proof fn lemma_bal_of_small(v: int, m: int)
    requires
        0 < m,
        2 * abs_int(v) < m,
    ensures
        bal(v % m, m) == v,
{
    if v >= 0 {
        lemma_small_mod(v as nat, m as nat);
    } else {
        lemma_mod_add_multiples_vanish(v, m);
        lemma_small_mod((v + m) as nat, m as nat);
        assert(v % m == v + m);
        assert(2 * (v + m) > m);
    }
}

/// Lifts a signed machine integer to the residue `c mod m`.
pub fn lift_i128(c: i128, m: u128) -> (r: u128)
    requires
        1 <= m <= modulus_bound(),
    ensures
        r == (c as int) % (m as int),
        r < m,
{
    if c >= 0 {
        proof {
            lemma_mod_bound(c as int, m as int);
        }
        (c as u128) % m
    } else {
        let mag: u128 = if c == i128::MIN {
            1u128 << 127
        } else {
            (-c) as u128
        };
        proof {
            assert(1u128 << 127 == 0x8000_0000_0000_0000_0000_0000_0000_0000u128) by (bit_vector);
        }
        let mm: u128 = mag % m;
        proof {
            lemma_mod_bound(mag as int, m as int);
            lemma_sub_mod_noop(0, mag as int, m as int);
            lemma_small_mod(0nat, m as nat);
            assert((0 - (mag as int % m as int)) % m as int == (0 - mag as int) % m as int);
            if mm == 0 {
                lemma_small_mod(0nat, m as nat);
            } else {
                lemma_mod_add_multiples_vanish(0 - mm as int, m as int);
                lemma_small_mod((m - mm) as nat, m as nat);
            }
        }
        if mm == 0 {
            0
        } else {
            m - mm
        }
    }
}

/// `(a + b) mod m`, on reduced residues.
pub fn add_mod(a: u128, b: u128, m: u128) -> (r: u128)
    requires
        1 <= m <= modulus_bound(),
        a < m,
        b < m,
    ensures
        r == fadd(a as int, b as int, m as int),
        r < m,
{
    let s: u128 = a + b;
    if s >= m {
        proof {
            lemma_mod_sub_multiples_vanish(s as int, m as int);
            lemma_small_mod((s - m) as nat, m as nat);
        }
        s - m
    } else {
        proof {
            lemma_small_mod(s as nat, m as nat);
        }
        s
    }
}

/// `(a - b) mod m`, on reduced residues.
pub fn sub_mod(a: u128, b: u128, m: u128) -> (r: u128)
    requires
        1 <= m <= modulus_bound(),
        a < m,
        b < m,
    ensures
        r == fsub(a as int, b as int, m as int),
        r < m,
{
    if a >= b {
        proof {
            lemma_small_mod((a - b) as nat, m as nat);
        }
        a - b
    } else {
        proof {
            lemma_mod_add_multiples_vanish(a - b, m as int);
            lemma_small_mod((a + m - b) as nat, m as nat);
        }
        a + m - b
    }
}

/// `(a * b) mod m` by shift-and-add doubling, so that no intermediate value
/// outgrows a `u128` even for moduli near the bound.
pub fn mul_mod(a: u128, b: u128, m: u128) -> (r: u128)
    requires
        1 <= m <= modulus_bound(),
        a < m,
        b < m,
    ensures
        r == fmul(a as int, b as int, m as int),
        r < m,
{
    let mut acc: u128 = 0;
    let mut base: u128 = a % m;
    let mut e: u128 = b;
    proof {
        lemma_small_mod(a as nat, m as nat);
        lemma_mod_bound(a as int * b as int, m as int);
    }
    while e > 0
        invariant
            1 <= m <= modulus_bound(),
            acc < m,
            base < m,
            (acc + base * e) % (m as int) == (a as int * b as int) % (m as int),
        decreases e,
    {
        if e % 2 == 1 {
            let old_acc: u128 = acc;
            acc = add_mod(acc, base, m);
            proof {
                // (acc' + base * (e - 1)) % m == (old_acc + base + base * (e - 1)) % m
                //                             == (old_acc + base * e) % m
                lemma_add_mod_noop(old_acc + base, base as int * (e - 1), m as int);
                lemma_small_mod((base as int * (e - 1) % m as int) as nat, m as nat);
                lemma_add_mod_noop_right(acc as int, base as int * (e - 1), m as int);
                lemma_add_mod_noop_right(old_acc + base, base as int * (e - 1), m as int);
                assert(old_acc + base * e == (old_acc + base) + base * (e - 1)) by (nonlinear_arith);
            }
            e = e - 1;
        }
        let old_base: u128 = base;
        let ghost old_e: u128 = e;
        base = add_mod(base, base, m);
        e = e / 2;
        proof {
            // base' * (e/2) == ((2 * old_base) % m) * (e/2) ≡ old_base * e  (mod m)
            assert(old_e % 2 == 0);
            lemma_mul_mod_noop_left(old_base + old_base, e as int, m as int);
            assert((old_base + old_base) * e == old_base as int * old_e) by {
                lemma_mul_is_distributive_add_other_way(e as int, old_base as int, old_base as int);
                assert(old_e == 2 * e);
                lemma_mul_is_associative(old_base as int, 2, e as int);
            };
            lemma_add_mod_noop_right(acc as int, base as int * e, m as int);
            lemma_add_mod_noop_right(acc as int, (old_base + old_base) * e, m as int);
        }
    }
    proof {
        lemma_small_mod(acc as nat, m as nat);
    }
    acc
}

/// `a^e mod m` by square-and-multiply.
pub fn pow_mod(a: u128, e: u64, m: u128) -> (r: u128)
    requires
        1 <= m <= modulus_bound(),
        a < m,
    ensures
        r == fpow(a as int, e as nat, m as int),
        r < m,
{
    let mut result: u128 = 1 % m;
    let mut base: u128 = a;
    let mut k: u64 = e;
    proof {
        lemma_mod_bound(1, m as int);
        lemma_fpow_bound(a as int, e as nat, m as int);
        lemma_mul_mod_noop_left(1, fpow(a as int, e as nat, m as int), m as int);
        lemma_fpow_bound(a as int, e as nat, m as int);
        lemma_small_mod(fpow(a as int, e as nat, m as int) as nat, m as nat);
    }
    while k > 0
        invariant
            1 <= m <= modulus_bound(),
            result < m,
            base < m,
            fmul(result as int, fpow(base as int, k as nat, m as int), m as int) == fpow(
                a as int,
                e as nat,
                m as int,
            ),
        decreases k,
    {
        if k % 2 == 1 {
            let old_result: u128 = result;
            result = mul_mod(result, base, m);
            proof {
                let fb = fpow(base as int, (k - 1) as nat, m as int);
                // result' * fpow(base, k-1) ≡ old_result * (base * fpow(base, k-1))
                //                           ≡ old_result * fpow(base, k)   (mod m)
                lemma_mul_mod_noop_left(old_result as int * base as int, fb, m as int);
                lemma_mul_is_associative(old_result as int, base as int, fb);
                lemma_mul_mod_noop_right(old_result as int, base as int * fb, m as int);
                assert(fpow(base as int, k as nat, m as int) == (base as int * fb) % (
                m as int));
            }
            k = k - 1;
        }
        let old_base: u128 = base;
        let ghost old_k: u64 = k;
        base = mul_mod(base, base, m);
        k = k / 2;
        proof {
            assert(old_k % 2 == 0);
            assert(old_k == 2 * (k as nat));
            lemma_fpow_square(old_base as int, k as nat, m as int);
            assert(fpow(base as int, k as nat, m as int) == fpow(
                old_base as int,
                old_k as nat,
                m as int,
            ));
        }
    }
    proof {
        assert(fpow(base as int, 0, m as int) == 1int % (m as int));
        lemma_mul_mod_noop_right(result as int, 1, m as int);
        lemma_small_mod(result as nat, m as nat);
    }
    result
}

/// `|bal(x, m)|`: the magnitude of the balanced representative.
pub fn bal_abs(x: u128, m: u128) -> (r: u128)
    requires
        1 <= m <= modulus_bound(),
        x < m,
    ensures
        r == abs_int(bal(x as int, m as int)),
{
    if 2 * x > m {
        m - x
    } else {
        x
    }
}

/// `bal(x, m) mod p`: the balanced representative reduced to `[0, p)`.
pub fn bal_mod(x: u128, m: u128, p: u128) -> (r: u128)
    requires
        1 <= m <= modulus_bound(),
        1 <= p <= modulus_bound(),
        x < m,
    ensures
        r == bal(x as int, m as int) % (p as int),
        r < p,
{
    if 2 * x > m {
        // bal = x - m; (x - m) % p == ((x % p) - (m % p)) % p
        let xm: u128 = x % p;
        let mm: u128 = m % p;
        proof {
            lemma_mod_bound(x as int, p as int);
            lemma_mod_bound(m as int, p as int);
            lemma_sub_mod_noop(x as int, m as int, p as int);
            if xm >= mm {
                lemma_small_mod((xm - mm) as nat, p as nat);
            } else {
                lemma_mod_add_multiples_vanish(xm - mm, p as int);
                lemma_small_mod((xm + p - mm) as nat, p as nat);
            }
        }
        if xm >= mm {
            xm - mm
        } else {
            xm + p - mm
        }
    } else {
        proof {
            lemma_mod_bound(x as int, p as int);
        }
        x % p
    }
}

} // verus!
