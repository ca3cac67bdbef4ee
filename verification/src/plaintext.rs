//! Plaintext vectors over F_p and the packing between them and ring
//! elements.
//!
//! A plaintext is a vector of `s` residues mod `p`.  Packing encodes it as
//! the polynomial of degree below `s` whose evaluations at the packing
//! points equal the vector (Lagrange interpolation); decoding evaluates at
//! those points.  The round trip is part of `encode`'s contract.

use vstd::prelude::*;
use vstd::arithmetic::div_mod::{
    lemma_small_mod, lemma_add_mod_noop, lemma_add_mod_noop_right,
    lemma_mul_mod_noop_left, lemma_mul_mod_noop_right, lemma_mod_twice,
};
use vstd::arithmetic::mul::{
    lemma_mul_is_distributive_add, lemma_mul_is_distributive_sub, lemma_mul_is_associative,
    lemma_mul_is_commutative, lemma_mul_unary_negation, lemma_mul_is_distributive_add_other_way,
    lemma_mul_is_distributive_sub_other_way,
};
use crate::arith::{fmul, bal, modulus_bound, add_mod, sub_mod, mul_mod, bal_mod};
use crate::ring::{all_below, padd, pscale, pad_seq, Encodedtext};
use crate::she::{eval_at, den_prefix, lag_den, SHEParameters, substitute};
use crate::rng::gen_below;
use crate::error::MpcError;

verus! {

/// Pointwise modular product of two equal-length sequences.
pub open spec fn pmul(a: Seq<int>, b: Seq<int>, p: int) -> Seq<int> {
    Seq::new(a.len(), |i: int| (a[i] * b[i]) % p)
}

/// Coefficients shifted up by one: the polynomial `X * a`.
pub open spec fn shift1(a: Seq<int>) -> Seq<int> {
    Seq::new(a.len() + 1, |i: int| if i == 0 {
        0int
    } else {
        a[i - 1]
    })
}

/// The polynomial `(X - c) * a`, coefficients reduced mod `p`.
pub open spec fn mul_linear_spec(a: Seq<int>, c: int, p: int) -> Seq<int> {
    padd(shift1(a), pscale(pad_seq(a, (a.len() + 1) as nat), 0 - c, p), p)
}

/// Each coefficient of a ring element, balanced and reduced mod `p`.
pub open spec fn balp(c: Seq<int>, q: int, p: int) -> Seq<int> {
    Seq::new(c.len(), |i: int| bal(c[i], q) % p)
}

/// What decoding a ring element yields: the evaluations of its balanced
/// mod-`p` reduction at the packing points.
pub open spec fn decode_spec(c: Seq<int>, q: int, params: &SHEParameters) -> Seq<int> {
    Seq::new(
        params.s_spec() as nat,
        |t: int| eval_at(balp(c, q, params.p_spec()), params.points_spec()[t], params.p_spec()),
    )
}

/// Evaluation of the all-zero polynomial is zero.
pub proof fn lemma_eval_zero(n: nat, x: int, p: int)
    requires
        1 <= p,
    ensures
        eval_at(crate::ring::zero_seq(n), x, p) == 0,
    decreases n,
{
    let z = crate::ring::zero_seq(n);
    if n > 0 {
        assert(z.subrange(1, n as int) =~= crate::ring::zero_seq((n - 1) as nat));
        lemma_eval_zero((n - 1) as nat, x, p);
        assert(eval_at(z, x, p) == (0 + x * 0) % p);
        lemma_small_mod(0nat, p as nat);
    }
}

/// Evaluation distributes over the pointwise modular sum.
pub proof fn lemma_eval_add(a: Seq<int>, b: Seq<int>, x: int, p: int)
    requires
        1 <= p,
        a.len() == b.len(),
    ensures
        eval_at(padd(a, b, p), x, p) == (eval_at(a, x, p) + eval_at(b, x, p)) % p,
    decreases a.len(),
{
    if a.len() == 0 {
        assert(padd(a, b, p).len() == 0);
        lemma_small_mod(0nat, p as nat);
    } else {
        let at = a.subrange(1, a.len() as int);
        let bt = b.subrange(1, b.len() as int);
        let s = padd(a, b, p);
        assert(s.subrange(1, s.len() as int) =~= padd(at, bt, p));
        lemma_eval_add(at, bt, x, p);
        let ea = eval_at(at, x, p);
        let eb = eval_at(bt, x, p);
        // eval(s) == ((a0+b0)%p + x*((ea+eb)%p)) % p
        assert(eval_at(s, x, p) == ((a[0] + b[0]) % p + x * ((ea + eb) % p)) % p);
        lemma_add_mod_noop_right(x * ((ea + eb) % p), a[0] + b[0], p);
        assert((x * ((ea + eb) % p) + (a[0] + b[0]) % p) % p == (x * ((ea + eb) % p) + (a[0]
            + b[0])) % p);
        lemma_mul_mod_noop_right(x, ea + eb, p);
        lemma_add_mod_noop_right(a[0] + b[0], x * ((ea + eb) % p), p);
        lemma_add_mod_noop_right(a[0] + b[0], x * (ea + eb), p);
        assert((a[0] + b[0] + x * ((ea + eb) % p)) % p == (a[0] + b[0] + (x * ((ea + eb) % p))
            % p) % p);
        assert((x * ((ea + eb) % p)) % p == (x * (ea + eb)) % p);
        assert((a[0] + b[0] + x * ((ea + eb) % p)) % p == (a[0] + b[0] + x * (ea + eb)) % p);
        lemma_mul_is_distributive_add(x, ea, eb);
        assert(eval_at(s, x, p) == (a[0] + b[0] + x * ea + x * eb) % p);
        // (eval a + eval b) % p == same sum
        let fa = (a[0] + x * ea) % p;
        let fb = (b[0] + x * eb) % p;
        assert(eval_at(a, x, p) == fa);
        assert(eval_at(b, x, p) == fb);
        lemma_add_mod_noop(a[0] + x * ea, b[0] + x * eb, p);
        assert((fa + fb) % p == (a[0] + x * ea + b[0] + x * eb) % p);
    }
}

/// Evaluation commutes with scaling by a constant.
pub proof fn lemma_eval_scale(a: Seq<int>, c: int, x: int, p: int)
    requires
        1 <= p,
    ensures
        eval_at(pscale(a, c, p), x, p) == (c * eval_at(a, x, p)) % p,
    decreases a.len(),
{
    if a.len() == 0 {
        lemma_small_mod(0nat, p as nat);
        assert((c * 0) % p == 0);
    } else {
        let at = a.subrange(1, a.len() as int);
        let s = pscale(a, c, p);
        assert(s.subrange(1, s.len() as int) =~= pscale(at, c, p));
        lemma_eval_scale(at, c, x, p);
        let ea = eval_at(at, x, p);
        assert(eval_at(s, x, p) == ((c * a[0]) % p + x * ((c * ea) % p)) % p);
        lemma_add_mod_noop_right(x * ((c * ea) % p), c * a[0], p);
        lemma_mul_mod_noop_right(x, c * ea, p);
        lemma_add_mod_noop_right(c * a[0], x * ((c * ea) % p), p);
        lemma_add_mod_noop_right(c * a[0], x * (c * ea), p);
        assert((x * ((c * ea) % p)) % p == (x * (c * ea)) % p);
        assert(eval_at(s, x, p) == (c * a[0] + x * (c * ea)) % p);
        // c * (a0 + x*ea) == c*a0 + x*(c*ea)
        lemma_mul_is_distributive_add(c, a[0], x * ea);
        lemma_mul_is_associative(c, x, ea);
        lemma_mul_is_associative(x, c, ea);
        lemma_mul_is_commutative(c, x);
        assert(c * (a[0] + x * ea) == c * a[0] + x * (c * ea));
        lemma_mul_mod_noop_right(c, a[0] + x * ea, p);
        assert((c * eval_at(a, x, p)) % p == (c * (a[0] + x * ea)) % p);
    }
}

/// Appending a zero coefficient does not change the evaluation.
pub proof fn lemma_eval_pad1(a: Seq<int>, x: int, p: int)
    requires
        1 <= p,
    ensures
        eval_at(pad_seq(a, (a.len() + 1) as nat), x, p) == eval_at(a, x, p),
    decreases a.len(),
{
    let e = pad_seq(a, (a.len() + 1) as nat);
    if a.len() == 0 {
        assert(e.subrange(1, 1) =~= Seq::<int>::empty());
        assert(e[0] == 0);
        assert(eval_at(e.subrange(1, 1), x, p) == 0);
        assert(eval_at(e, x, p) == (0 + x * 0) % p);
        lemma_small_mod(0nat, p as nat);
    } else {
        let at = a.subrange(1, a.len() as int);
        assert(e.subrange(1, e.len() as int) =~= pad_seq(at, (at.len() + 1) as nat));
        lemma_eval_pad1(at, x, p);
    }
}

/// Evaluating `(X - c) * a` multiplies the evaluation by `x - c`.
pub proof fn lemma_eval_mul_linear(a: Seq<int>, c: int, x: int, p: int)
    requires
        1 <= p,
    ensures
        eval_at(mul_linear_spec(a, c, p), x, p) == ((x - c) * eval_at(a, x, p)) % p,
{
    let sh = shift1(a);
    let sc = pscale(pad_seq(a, (a.len() + 1) as nat), 0 - c, p);
    let ea = eval_at(a, x, p);
    lemma_eval_add(sh, sc, x, p);
    // eval(shift1 a) == (x * eval a) % p
    assert(sh.subrange(1, sh.len() as int) =~= a);
    assert(eval_at(sh, x, p) == (0 + x * ea) % p);
    // eval(sc) == ((-c) * eval a) % p
    lemma_eval_scale(pad_seq(a, (a.len() + 1) as nat), 0 - c, x, p);
    lemma_eval_pad1(a, x, p);
    assert(eval_at(sc, x, p) == ((0 - c) * ea) % p);
    // combine
    lemma_add_mod_noop((x * ea), ((0 - c) * ea), p);
    assert(((x * ea) % p + ((0 - c) * ea) % p) % p == (x * ea + (0 - c) * ea) % p);
    lemma_mul_is_distributive_sub(ea, x, c);
    lemma_mul_is_commutative(ea, x);
    lemma_mul_is_commutative(ea, c);
    lemma_mul_is_commutative(ea, x - c);
    lemma_mul_unary_negation(c, ea);
    assert((0 - c) * ea == 0 - (c * ea));
    assert(x * ea + (0 - c) * ea == (x - c) * ea);
}

/// Coefficients scaled by `c`, without reduction.
pub open spec fn cscale(a: Seq<int>, c: int) -> Seq<int> {
    Seq::new(a.len(), |i: int| c * a[i])
}

/// The full (unreduced, unfolded) product of two coefficient sequences.
pub open spec fn conv_seq(a: Seq<int>, b: Seq<int>) -> Seq<int> {
    Seq::new((a.len() + b.len() - 1) as nat, |k: int| crate::ring::conv_at(a, b, k))
}

/// Evaluation only depends on the coefficients' residues.
proof fn lemma_eval_congruent(a: Seq<int>, b: Seq<int>, x: int, p: int)
    requires
        1 <= p,
        a.len() == b.len(),
        forall|j: int| 0 <= j < a.len() ==> #[trigger] a[j] % p == b[j] % p,
    ensures
        eval_at(a, x, p) == eval_at(b, x, p),
    decreases a.len(),
{
    if a.len() > 0 {
        let at = a.subrange(1, a.len() as int);
        let bt = b.subrange(1, b.len() as int);
        assert forall|j: int| 0 <= j < at.len() implies #[trigger] at[j] % p == bt[j] % p by {
            assert(a[j + 1] % p == b[j + 1] % p);
        }
        lemma_eval_congruent(at, bt, x, p);
        let e = eval_at(at, x, p);
        lemma_add_mod_noop(a[0], x * e, p);
        lemma_add_mod_noop(b[0], x * e, p);
    }
}

/// Evaluation of a concatenation: the tail is weighted by `x^len` of the
/// head.
proof fn lemma_eval_concat(a: Seq<int>, b: Seq<int>, x: int, p: int)
    requires
        1 <= p,
    ensures
        eval_at(a + b, x, p) == (eval_at(a, x, p) + crate::arith::fpow(x, a.len(), p) * eval_at(
            b,
            x,
            p,
        )) % p,
    decreases a.len(),
{
    if a.len() == 0 {
        assert(a + b =~= b);
        let e = eval_at(b, x, p);
        lemma_mul_mod_noop_left(1, e, p);
        lemma_small_mod(1nat % (p as nat), p as nat);
        assert(crate::arith::fpow(x, 0, p) == 1int % p);
        assert(((1int % p) * e) % p == (1 * e) % p);
        if b.len() == 0 {
            lemma_small_mod(0nat, p as nat);
        } else {
            vstd::arithmetic::div_mod::lemma_mod_bound(b[0] + x * eval_at(
                b.subrange(1, b.len() as int),
                x,
                p,
            ), p);
            lemma_small_mod(e as nat, p as nat);
        }
        lemma_add_mod_noop_right(0, (1int % p) * e, p);
        assert((0 + (1int % p) * e) % p == (0 + 1 * e) % p);
        lemma_small_mod(0nat, p as nat);
        if b.len() == 0 {
        } else {
            lemma_small_mod(e as nat, p as nat);
        }
    } else {
        let at = a.subrange(1, a.len() as int);
        assert((a + b).subrange(1, (a + b).len() as int) =~= at + b);
        lemma_eval_concat(at, b, x, p);
        let ea = eval_at(at, x, p);
        let eb = eval_at(b, x, p);
        let f1 = crate::arith::fpow(x, at.len(), p);
        let f = crate::arith::fpow(x, a.len(), p);
        assert(f == (x * f1) % p);
        // eval(a ++ b) == (a0 + x * ((ea + f1 * eb) % p)) % p
        assert(eval_at(a + b, x, p) == ((a + b)[0] + x * ((ea + f1 * eb) % p)) % p);
        assert((a + b)[0] == a[0]);
        lemma_add_mod_noop_right(a[0], x * ((ea + f1 * eb) % p), p);
        lemma_mul_mod_noop_right(x, ea + f1 * eb, p);
        lemma_add_mod_noop_right(a[0], x * (ea + f1 * eb), p);
        assert(eval_at(a + b, x, p) == (a[0] + x * (ea + f1 * eb)) % p);
        lemma_mul_is_distributive_add(x, ea, f1 * eb);
        lemma_mul_is_associative(x, f1, eb);
        assert(eval_at(a + b, x, p) == (a[0] + x * ea + (x * f1) * eb) % p);
        // fold the power back to its residue
        lemma_mul_mod_noop_left(x * f1, eb, p);
        lemma_add_mod_noop_right(a[0] + x * ea, (x * f1) * eb, p);
        lemma_add_mod_noop_right(a[0] + x * ea, ((x * f1) % p) * eb, p);
        assert((a[0] + x * ea + (x * f1) * eb) % p == (a[0] + x * ea + f * eb) % p);
        // and the right-hand side strips its inner reductions the same way
        lemma_add_mod_noop(a[0] + x * ea, f * eb, p);
        lemma_mod_twice(a[0] + x * ea, p);
        lemma_mod_twice(f * eb, p);
        lemma_add_mod_noop((a[0] + x * ea) % p, f * eb, p);
        assert((eval_at(a, x, p) + f * eb) % p == ((a[0] + x * ea) % p + f * eb) % p);
        assert(((a[0] + x * ea) % p + f * eb) % p == (a[0] + x * ea + f * eb) % p) by {
            lemma_add_mod_noop((a[0] + x * ea) % p, f * eb, p);
            lemma_mod_twice(a[0] + x * ea, p);
            lemma_add_mod_noop(a[0] + x * ea, f * eb, p);
        };
    }
}

/// Evaluation distributes over the raw pointwise sum.
proof fn lemma_eval_praw(a: Seq<int>, b: Seq<int>, x: int, p: int)
    requires
        1 <= p,
        a.len() == b.len(),
    ensures
        eval_at(crate::ring::praw(a, b), x, p) == (eval_at(a, x, p) + eval_at(b, x, p)) % p,
    decreases a.len(),
{
    if a.len() == 0 {
        lemma_small_mod(0nat, p as nat);
    } else {
        let at = a.subrange(1, a.len() as int);
        let bt = b.subrange(1, b.len() as int);
        let s = crate::ring::praw(a, b);
        assert(s.subrange(1, s.len() as int) =~= crate::ring::praw(at, bt));
        lemma_eval_praw(at, bt, x, p);
        let ea = eval_at(at, x, p);
        let eb = eval_at(bt, x, p);
        assert(eval_at(s, x, p) == (a[0] + b[0] + x * ((ea + eb) % p)) % p);
        lemma_add_mod_noop_right(a[0] + b[0], x * ((ea + eb) % p), p);
        lemma_mul_mod_noop_right(x, ea + eb, p);
        lemma_add_mod_noop_right(a[0] + b[0], x * (ea + eb), p);
        lemma_mul_is_distributive_add(x, ea, eb);
        assert(eval_at(s, x, p) == (a[0] + b[0] + x * ea + x * eb) % p);
        lemma_add_mod_noop(a[0] + x * ea, b[0] + x * eb, p);
    }
}

/// Evaluation of a raw-scaled sequence.
proof fn lemma_eval_cscale(a: Seq<int>, c: int, x: int, p: int)
    requires
        1 <= p,
    ensures
        eval_at(cscale(a, c), x, p) == (c * eval_at(a, x, p)) % p,
    decreases a.len(),
{
    if a.len() == 0 {
        lemma_small_mod(0nat, p as nat);
        assert((c * 0) % p == 0);
    } else {
        let at = a.subrange(1, a.len() as int);
        let s = cscale(a, c);
        assert(s.subrange(1, s.len() as int) =~= cscale(at, c));
        lemma_eval_cscale(at, c, x, p);
        let ea = eval_at(at, x, p);
        assert(eval_at(s, x, p) == (c * a[0] + x * ((c * ea) % p)) % p);
        lemma_add_mod_noop_right(c * a[0], x * ((c * ea) % p), p);
        lemma_mul_mod_noop_right(x, c * ea, p);
        lemma_add_mod_noop_right(c * a[0], x * (c * ea), p);
        lemma_mul_is_distributive_add(c, a[0], x * ea);
        lemma_mul_is_associative(c, x, ea);
        lemma_mul_is_associative(x, c, ea);
        lemma_mul_is_commutative(c, x);
        assert(eval_at(s, x, p) == (c * (a[0] + x * ea)) % p);
        lemma_mul_mod_noop_right(c, a[0] + x * ea, p);
    }
}

/// Padding with any number of zero coefficients keeps the evaluation.
proof fn lemma_eval_pad_any(a: Seq<int>, m: nat, x: int, p: int)
    requires
        1 <= p,
        m >= a.len(),
    ensures
        eval_at(pad_seq(a, m), x, p) == eval_at(a, x, p),
    decreases m - a.len(),
{
    if m == a.len() {
        assert(pad_seq(a, m) =~= a);
    } else {
        let shorter = pad_seq(a, (m - 1) as nat);
        lemma_eval_pad_any(a, (m - 1) as nat, x, p);
        lemma_eval_pad1(shorter, x, p);
        assert(pad_seq(shorter, (shorter.len() + 1) as nat) =~= pad_seq(a, m));
    }
}

/// Cauchy's rule: evaluating the full product evaluates the factors.
proof fn lemma_eval_conv(a: Seq<int>, b: Seq<int>, x: int, p: int)
    requires
        1 <= p,
        1 <= a.len(),
        1 <= b.len(),
    ensures
        eval_at(conv_seq(a, b), x, p) == (eval_at(a, x, p) * eval_at(b, x, p)) % p,
    decreases a.len(),
{
    let la = a.len() as int;
    let lb = b.len() as int;
    if a.len() == 1 {
        assert(conv_seq(a, b) =~= cscale(b, a[0])) by {
            assert forall|k: int| 0 <= k < lb implies conv_seq(a, b)[k] == a[0] * b[k] by {
                assert(crate::ring::csum(a, b, k, 0) == 0);
                assert(crate::ring::csum(a, b, k, 1) == 0 + a[0] * b[k]);
                assert(crate::ring::conv_at(a, b, k) == crate::ring::csum(a, b, k, 1));
            }
        }
        lemma_eval_cscale(b, a[0], x, p);
        let eb = eval_at(b, x, p);
        assert(a.subrange(1, 1) =~= Seq::<int>::empty());
        assert(eval_at(a.subrange(1, 1), x, p) == 0);
        assert(eval_at(a, x, p) == (a[0] + x * 0) % p);
        lemma_mul_mod_noop_left(a[0], eb, p);
        assert((((a[0] + x * 0) % p) * eb) % p == (a[0] * eb) % p) by {
            lemma_mul_mod_noop_left(a[0], eb, p);
            lemma_mod_twice(a[0], p);
            lemma_mul_mod_noop_left(a[0] % p, eb, p);
        };
    } else {
        let ap = a.subrange(0, la - 1);
        let alast = a[la - 1];
        lemma_eval_conv(ap, b, x, p);
        // the product splits into the shorter product plus a shifted scaled copy
        let lowpart = pad_seq(conv_seq(ap, b), (la + lb - 1) as nat);
        let shifted = crate::ring::zero_seq((la - 1) as nat) + cscale(b, alast);
        assert(conv_seq(a, b) =~= crate::ring::praw(lowpart, shifted)) by {
            assert forall|k: int| 0 <= k < la + lb - 1 implies conv_seq(a, b)[k] == lowpart[k]
                + shifted[k] by {
                assert(crate::ring::conv_at(a, b, k) == crate::ring::csum(a, b, k, (la - 1) as nat)
                    + if 0 <= k - (la - 1) < lb {
                    alast * b[k - (la - 1)]
                } else {
                    0int
                });
                crate::ring::lemma_csum_ignores_high(a, ap, b, k, (la - 1) as nat);
                if k < la + lb - 2 {
                    assert(lowpart[k] == crate::ring::conv_at(ap, b, k));
                } else {
                    crate::ring::lemma_conv_at_zero(ap, b, k, (la - 1) as nat);
                    assert(lowpart[k] == 0);
                }
                if 0 <= k - (la - 1) < lb {
                    assert(shifted[k] == alast * b[k - (la - 1)]);
                } else {
                    if k < la - 1 {
                        assert(shifted[k] == 0);
                    } else {
                        assert(shifted[k] == 0);
                    }
                }
            }
        }
        lemma_eval_praw(lowpart, shifted, x, p);
        lemma_eval_pad_any(conv_seq(ap, b), (la + lb - 1) as nat, x, p);
        lemma_eval_concat(crate::ring::zero_seq((la - 1) as nat), cscale(b, alast), x, p);
        lemma_eval_zero((la - 1) as nat, x, p);
        lemma_eval_cscale(b, alast, x, p);
        let eap = eval_at(ap, x, p);
        let eb = eval_at(b, x, p);
        let f = crate::arith::fpow(x, (la - 1) as nat, p);
        // eval(shifted) == (f * ((alast * eb) % p)) % p == (f * alast * eb) % p
        assert(eval_at(shifted, x, p) == (0 + f * ((alast * eb) % p)) % p);
        lemma_mul_mod_noop_right(f, alast * eb, p);
        lemma_mul_is_associative(f, alast, eb);
        assert(eval_at(shifted, x, p) == (f * alast * eb) % p) by {
            lemma_mul_mod_noop_right(f, alast * eb, p);
            lemma_mul_is_associative(f, alast, eb);
        };
        // combine both parts
        assert(eval_at(conv_seq(a, b), x, p) == ((eap * eb) % p + (f * alast * eb) % p) % p);
        lemma_add_mod_noop(eap * eb, f * alast * eb, p);
        assert(eval_at(conv_seq(a, b), x, p) == (eap * eb + f * alast * eb) % p);
        // and the right-hand side: eval(a) == (eap + f * alast) % p
        lemma_eval_concat(ap, seq![alast], x, p);
        assert(ap + seq![alast] =~= a);
        assert(eval_at(seq![alast], x, p) == (alast + x * eval_at(
            seq![alast].subrange(1, 1),
            x,
            p,
        )) % p);
        assert(seq![alast].subrange(1, 1) =~= Seq::<int>::empty());
        assert(eval_at(seq![alast], x, p) == alast % p);
        assert(eval_at(a, x, p) == (eap + f * (alast % p)) % p);
        lemma_mul_mod_noop_right(f, alast, p);
        lemma_add_mod_noop_right(eap, f * (alast % p), p);
        lemma_add_mod_noop_right(eap, f * alast, p);
        assert(eval_at(a, x, p) == (eap + f * alast) % p);
        lemma_mul_mod_noop_left(eap + f * alast, eb, p);
        lemma_mul_is_distributive_add_other_way(eb, eap, f * alast);
        assert((eval_at(a, x, p) * eb) % p == ((eap + f * alast) * eb) % p) by {
            lemma_mul_mod_noop_left(eap + f * alast, eb, p);
            lemma_mod_twice(eap + f * alast, p);
            lemma_mul_mod_noop_left((eap + f * alast) % p, eb, p);
        };
        assert((eap + f * alast) * eb == eap * eb + (f * alast) * eb);
        lemma_mul_is_associative(f, alast, eb);
    }
}

/// Law: decoding is multiplicative.  For ring elements with coefficients
/// reduced below `p` (as every encoding is) in a ring whose modulus leaves
/// room for the full integer product, decoding the negacyclic product is
/// the slotwise mod-`p` product of the decodings.
pub proof fn lemma_decode_mul(c1: Seq<int>, c2: Seq<int>, params: &SHEParameters)
    requires
        params.wf(),
        c1.len() == params.n_spec(),
        c2.len() == params.n_spec(),
        all_below(c1, params.p_spec()),
        all_below(c2, params.p_spec()),
        4 * params.n_spec() * params.p_spec() * params.p_spec() < params.q_spec(),
    ensures
        decode_spec(
            crate::ring::neg_mul(c1, c2, params.q_spec()),
            params.q_spec(),
            params,
        ) == Seq::new(
            params.s_spec() as nat,
            |t: int|
                (decode_spec(c1, params.q_spec(), params)[t] * decode_spec(
                    c2,
                    params.q_spec(),
                    params,
                )[t]) % params.p_spec(),
        ),
{
    let p = params.p_spec();
    let q = params.q_spec();
    let n = params.n_spec();
    let prod = crate::ring::neg_mul(c1, c2, q);
    // raw folded coefficients, before reduction mod q
    let draw = Seq::new(n as nat, |t: int| crate::ring::conv_at(c1, c2, t) - crate::ring::conv_at(
        c1,
        c2,
        t + n,
    ));
    assert forall|t: int| 0 <= t < n implies #[trigger] balp(prod, q, p)[t] == draw[t] % p by {
        crate::ring::lemma_csum_bound(c1, c2, t, c1.len(), p);
        crate::ring::lemma_csum_bound(c1, c2, t + n, c1.len(), p);
        assert(n * p * p + n * p * p <= 4 * n * p * p) by (nonlinear_arith)
            requires
                n >= 1,
                p >= 2,
        ;
        assert(2 * crate::arith::abs_int(draw[t]) < q) by (nonlinear_arith)
            requires
                0 <= crate::ring::conv_at(c1, c2, t) <= n * p * p,
                0 <= crate::ring::conv_at(c1, c2, t + n) <= n * p * p,
                draw[t] == crate::ring::conv_at(c1, c2, t) - crate::ring::conv_at(c1, c2, t + n),
                4 * n * p * p < q,
        ;
        crate::arith::lemma_bal_of_small(draw[t], q);
        assert(prod[t] == draw[t] % q);
    }
    // the raw fold evaluates like the full product at every packing point
    let cs = conv_seq(c1, c2);
    let cpad = pad_seq(cs, (2 * n) as nat);
    assert forall|t: int| 0 <= t < params.s_spec() implies #[trigger] decode_spec(prod, q, params)[t]
        == (decode_spec(c1, q, params)[t] * decode_spec(c2, q, params)[t]) % p by {
        let x = params.points_spec()[t];
        assert(crate::arith::fpow(x, n as nat, p) == p - 1);
        // decode sees the residues of the raw fold
        assert(balp(prod, q, p).len() == n);
        let dmodp = Seq::new(n as nat, |t2: int| draw[t2] % p);
        lemma_eval_congruent(balp(prod, q, p), dmodp, x, p);
        assert forall|j: int| 0 <= j < n implies #[trigger] dmodp[j] % p == draw[j] % p by {
            lemma_mod_twice(draw[j], p);
        }
        lemma_eval_congruent(dmodp, draw, x, p);
        // the fold equals low minus high of the padded product
        let low = cpad.subrange(0, n);
        let high = cpad.subrange(n, 2 * n);
        assert(draw =~= crate::ring::praw(low, cscale(high, -1))) by {
            assert forall|j: int| 0 <= j < n implies draw[j] == low[j] + (-1) * high[j] by {
                if n + j < 2 * n - 1 {
                    assert(high[j] == crate::ring::conv_at(c1, c2, n + j));
                } else {
                    crate::ring::lemma_conv_at_zero(c1, c2, n + j, c1.len());
                    assert(high[j] == 0 || high[j] == crate::ring::conv_at(c1, c2, n + j));
                    if n + j >= 2 * n - 1 {
                        assert(cpad[n + j] == if n + j < cs.len() {
                            cs[n + j]
                        } else {
                            0int
                        });
                        if n + j < cs.len() {
                            assert(high[j] == crate::ring::conv_at(c1, c2, n + j));
                        } else {
                            assert(high[j] == 0);
                            assert(crate::ring::conv_at(c1, c2, n + j) == 0);
                        }
                    }
                }
                if j < 2 * n - 1 {
                    assert(low[j] == cs[j]);
                } else {
                    assert(low[j] == 0);
                }
            }
        }
        lemma_eval_praw(low, cscale(high, -1), x, p);
        lemma_eval_cscale(high, -1, x, p);
        // the padded product splits into low and high halves
        assert(cpad =~= low + high);
        lemma_eval_concat(low, high, x, p);
        lemma_eval_pad_any(cs, (2 * n) as nat, x, p);
        lemma_eval_conv(c1, c2, x, p);
        let el = eval_at(low, x, p);
        let eh = eval_at(high, x, p);
        // x^n = -1 makes the high half enter negated on both sides
        assert(eval_at(draw, x, p) == (el + ((-1) * eh) % p) % p);
        lemma_add_mod_noop_right(el, (-1) * eh, p);
        assert(eval_at(draw, x, p) == (el - eh) % p);
        assert(eval_at(low + high, x, p) == (el + crate::arith::fpow(x, low.len(), p) * eh)
            % p);
        assert(low.len() == n as nat);
        assert(crate::arith::fpow(x, low.len(), p) == p - 1);
        assert(eval_at(cpad, x, p) == (el + (p - 1) * eh) % p);
        vstd::arithmetic::div_mod::lemma_mod_multiples_vanish(eh, 0 - eh, p);
        lemma_mul_is_distributive_sub_other_way(eh, p, 1);
        assert((p - 1) * eh == p * eh - eh);
        lemma_add_mod_noop_right(el, (p - 1) * eh, p);
        lemma_add_mod_noop_right(el, 0 - eh, p);
        assert(((p - 1) * eh) % p == (0 - eh) % p) by {
            vstd::arithmetic::div_mod::lemma_mod_multiples_vanish(eh, 0 - eh, p);
            lemma_mul_is_distributive_sub_other_way(eh, p, 1);
        };
        assert(eval_at(cpad, x, p) == (el - eh) % p);
        // assemble: decode of the product at slot t is the slot product
        assert(decode_spec(prod, q, params)[t] == eval_at(draw, x, p));
        assert(eval_at(draw, x, p) == (eval_at(c1, x, p) * eval_at(c2, x, p)) % p);
        // the decodings of the factors are their plain evaluations
        assert(balp(c1, q, p) =~= c1) by {
            assert forall|j: int| 0 <= j < c1.len() implies balp(c1, q, p)[j] == c1[j] by {
                assert(2 * c1[j] < q);
                assert(bal(c1[j], q) == c1[j]);
                lemma_small_mod(c1[j] as nat, p as nat);
            }
        }
        assert(balp(c2, q, p) =~= c2) by {
            assert forall|j: int| 0 <= j < c2.len() implies balp(c2, q, p)[j] == c2[j] by {
                assert(2 * c2[j] < q);
                assert(bal(c2[j], q) == c2[j]);
                lemma_small_mod(c2[j] as nat, p as nat);
            }
        }
    }
    assert(decode_spec(prod, q, params) =~= Seq::new(
        params.s_spec() as nat,
        |t: int|
            (decode_spec(c1, q, params)[t] * decode_spec(c2, q, params)[t]) % p,
    ));
}

/// Law: decoding is additive.  For ring elements whose coefficients are
/// reduced below `p` (as every encoding is), the decoding of their mod-`q`
/// sum is the slotwise mod-`p` sum of their decodings.
pub proof fn lemma_decode_add(c1: Seq<int>, c2: Seq<int>, params: &SHEParameters)
    requires
        params.wf(),
        c1.len() == c2.len(),
        all_below(c1, params.p_spec()),
        all_below(c2, params.p_spec()),
    ensures
        decode_spec(padd(c1, c2, params.q_spec()), params.q_spec(), params) == Seq::new(
            params.s_spec() as nat,
            |t: int|
                (decode_spec(c1, params.q_spec(), params)[t] + decode_spec(
                    c2,
                    params.q_spec(),
                    params,
                )[t]) % params.p_spec(),
        ),
{
    let p = params.p_spec();
    let q = params.q_spec();
    let su = padd(c1, c2, q);
    assert(balp(su, q, p) =~= padd(c1, c2, p)) by {
        assert forall|k: int| 0 <= k < su.len() implies balp(su, q, p)[k] == padd(c1, c2, p)[k]
            by {
            let a = c1[k];
            let b = c2[k];
            lemma_small_mod((a + b) as nat, q as nat);
            assert(su[k] == a + b);
            assert(2 * (a + b) < q);
            assert(bal(a + b, q) == a + b);
        }
    }
    assert(balp(c1, q, p) =~= c1) by {
        assert forall|k: int| 0 <= k < c1.len() implies balp(c1, q, p)[k] == c1[k] by {
            assert(2 * c1[k] < q);
            assert(bal(c1[k], q) == c1[k]);
            lemma_small_mod(c1[k] as nat, p as nat);
        }
    }
    assert(balp(c2, q, p) =~= c2) by {
        assert forall|k: int| 0 <= k < c2.len() implies balp(c2, q, p)[k] == c2[k] by {
            assert(2 * c2[k] < q);
            assert(bal(c2[k], q) == c2[k]);
            lemma_small_mod(c2[k] as nat, p as nat);
        }
    }
    assert forall|t: int| 0 <= t < params.s_spec() implies decode_spec(su, q, params)[t] == (
    decode_spec(c1, q, params)[t] + decode_spec(c2, q, params)[t]) % p by {
        lemma_eval_add(c1, c2, params.points_spec()[t], p);
    }
    assert(decode_spec(su, q, params) =~= Seq::new(
        params.s_spec() as nat,
        |t: int| (decode_spec(c1, q, params)[t] + decode_spec(c2, q, params)[t]) % p,
    ));
}

/// Computes `(X - c) * a` over F_p, coefficients low-first.
fn mul_linear(polynomial: &Vec<u128>, c: u128, p: u128) -> (r: Vec<u128>)
    requires
        2 <= p <= modulus_bound(),
        c < p,
        polynomial@.len() + 1 <= usize::MAX,
        forall|i: int| 0 <= i < polynomial@.len() ==> polynomial@[i] < p,
    ensures
        r@.len() == polynomial@.len() + 1,
        forall|i: int| 0 <= i < r@.len() ==> r@[i] < p,
        r@.map(|_i: int, v: u128| v as int) == mul_linear_spec(
            polynomial@.map(|_i: int, v: u128| v as int),
            c as int,
            p as int,
        ),
{
    let ghost a = polynomial@.map(|_i: int, v: u128| v as int);
    let ghost target = mul_linear_spec(a, c as int, p as int);
    let len = polynomial.len();
    let mut out: Vec<u128> = Vec::new();
    let mut i: usize = 0;
    while i < len + 1
        invariant
            i <= len + 1,
            len == a.len(),
            len + 1 <= usize::MAX,
            2 <= p <= modulus_bound(),
            c < p,
            a == polynomial@.map(|_i: int, v: u128| v as int),
            forall|k: int| 0 <= k < len ==> polynomial@[k] < p,
            target == mul_linear_spec(a, c as int, p as int),
            out@.len() == i,
            forall|k: int| 0 <= k < i ==> out@[k] < p,
            forall|k: int| 0 <= k < i ==> out@[k] as int == target[k],
        decreases len + 1 - i,
    {
        let sv: u128 = if i == 0 {
            0
        } else {
            polynomial[i - 1]
        };
        let scv: u128 = if i < len {
            let t = mul_mod(c, polynomial[i], p);
            proof {
                // (0 - (c*a_i) % p) % p == ((0 - c) * a_i) % p
                vstd::arithmetic::div_mod::lemma_sub_mod_noop_right(
                    0,
                    (c as int) * a[i as int],
                    p as int,
                );
                lemma_mul_unary_negation(c as int, a[i as int]);
                assert(polynomial@[i as int] as int == a[i as int]);
            }
            sub_mod(0, t, p)
        } else {
            proof {
                lemma_small_mod(0nat, p as nat);
            }
            0
        };
        proof {
            let ext = pad_seq(a, (a.len() + 1) as nat);
            assert(pscale(ext, 0 - c as int, p as int)[i as int] == ((0 - c as int) * ext[i as int])
                % (p as int));
            if i < len {
                assert(ext[i as int] == a[i as int]);
            } else {
                assert(ext[i as int] == 0);
                assert(((0 - c as int) * 0int) % (p as int) == 0);
            }
            assert(scv as int == pscale(ext, 0 - c as int, p as int)[i as int]);
            if i > 0 {
                assert(polynomial@[i as int - 1] as int == a[i as int - 1]);
            }
            assert(sv as int == shift1(a)[i as int]);
        }
        let v = add_mod(sv, scv, p);
        proof {
            assert(target[i as int] == (shift1(a)[i as int] + pscale(
                pad_seq(a, (a.len() + 1) as nat),
                0 - c as int,
                p as int,
            )[i as int]) % (p as int));
        }
        out.push(v);
        i = i + 1;
    }
    proof {
        assert(out@.map(|_i: int, v: u128| v as int) =~= target);
    }
    out
}

/// Pointwise sum over F_p.
fn padd_exec(a: &Vec<u128>, b: &Vec<u128>, p: u128) -> (r: Vec<u128>)
    requires
        2 <= p <= modulus_bound(),
        a@.len() == b@.len(),
        forall|i: int| 0 <= i < a@.len() ==> a@[i] < p,
        forall|i: int| 0 <= i < b@.len() ==> b@[i] < p,
    ensures
        r@.len() == a@.len(),
        forall|i: int| 0 <= i < r@.len() ==> r@[i] < p,
        r@.map(|_i: int, v: u128| v as int) == padd(
            a@.map(|_i: int, v: u128| v as int),
            b@.map(|_i: int, v: u128| v as int),
            p as int,
        ),
{
    let ghost target = padd(
        a@.map(|_i: int, v: u128| v as int),
        b@.map(|_i: int, v: u128| v as int),
        p as int,
    );
    let len = a.len();
    let mut out: Vec<u128> = Vec::new();
    let mut i: usize = 0;
    while i < len
        invariant
            i <= len,
            len == a@.len() == b@.len(),
            2 <= p <= modulus_bound(),
            forall|k: int| 0 <= k < len ==> a@[k] < p,
            forall|k: int| 0 <= k < len ==> b@[k] < p,
            target == padd(
                a@.map(|_i: int, v: u128| v as int),
                b@.map(|_i: int, v: u128| v as int),
                p as int,
            ),
            out@.len() == i,
            forall|k: int| 0 <= k < i ==> out@[k] < p,
            forall|k: int| 0 <= k < i ==> out@[k] as int == target[k],
        decreases len - i,
    {
        let v = add_mod(a[i], b[i], p);
        out.push(v);
        i = i + 1;
    }
    proof {
        assert(out@.map(|_i: int, v: u128| v as int) =~= target);
    }
    out
}

/// Pointwise scaling over F_p.
fn pscale_exec(a: &Vec<u128>, c: u128, p: u128) -> (r: Vec<u128>)
    requires
        2 <= p <= modulus_bound(),
        c < p,
        forall|i: int| 0 <= i < a@.len() ==> a@[i] < p,
    ensures
        r@.len() == a@.len(),
        forall|i: int| 0 <= i < r@.len() ==> r@[i] < p,
        r@.map(|_i: int, v: u128| v as int) == pscale(
            a@.map(|_i: int, v: u128| v as int),
            c as int,
            p as int,
        ),
{
    let ghost target = pscale(a@.map(|_i: int, v: u128| v as int), c as int, p as int);
    let len = a.len();
    let mut out: Vec<u128> = Vec::new();
    let mut i: usize = 0;
    while i < len
        invariant
            i <= len,
            len == a@.len(),
            2 <= p <= modulus_bound(),
            c < p,
            forall|k: int| 0 <= k < len ==> a@[k] < p,
            target == pscale(a@.map(|_i: int, v: u128| v as int), c as int, p as int),
            out@.len() == i,
            forall|k: int| 0 <= k < i ==> out@[k] < p,
            forall|k: int| 0 <= k < i ==> out@[k] as int == target[k],
        decreases len - i,
    {
        let v = mul_mod(c, a[i], p);
        out.push(v);
        i = i + 1;
    }
    proof {
        assert(out@.map(|_i: int, v: u128| v as int) =~= target);
    }
    out
}

/// A plaintext vector: packing slots over F_p.
pub struct Plaintexts {
    vals: Vec<u128>,
    p: u128,
}

impl Clone for Plaintexts {
    fn clone(&self) -> (r: Self)
        ensures
            r.vals_spec() == self.vals_spec(),
            r.p_spec() == self.p_spec(),
            r.wf() == self.wf(),
    {
        let len = self.vals.len();
        let mut vals: Vec<u128> = Vec::new();
        let mut t: usize = 0;
        while t < len
            invariant
                t <= len,
                len == self.vals@.len(),
                vals@.len() == t,
                forall|k: int| 0 <= k < t ==> vals@[k] == self.vals@[k],
            decreases len - t,
        {
            vals.push(self.vals[t]);
            t = t + 1;
        }
        let r = Self { vals, p: self.p };
        proof {
            assert(r.vals@ =~= self.vals@);
            assert(r.vals_spec() =~= self.vals_spec());
        }
        r
    }
}

impl Plaintexts {
    /// The slot values as mathematical integers.
    pub closed spec fn vals_spec(&self) -> Seq<int> {
        self.vals@.map(|_i: int, v: u128| v as int)
    }

    pub closed spec fn p_spec(&self) -> int {
        self.p as int
    }

    pub open spec fn wf(&self) -> bool {
        2 <= self.p_spec() <= modulus_bound() && all_below(self.vals_spec(), self.p_spec())
    }

    pub fn from_vec(vals: Vec<u128>, p: u128) -> (r: Self)
        requires
            2 <= p <= modulus_bound(),
            forall|i: int| 0 <= i < vals@.len() ==> vals@[i] < p,
        ensures
            r.wf(),
            r.p_spec() == p,
            r.vals_spec() == vals@.map(|_i: int, v: u128| v as int),
    {
        let r = Self { vals, p };
        proof {
            assert(all_below(r.vals_spec(), r.p_spec()));
        }
        r
    }

    /// A uniformly random plaintext of `s` slots.
    pub fn rand(params: &SHEParameters, rng: &mut rand::rngs::StdRng) -> (r: Self)
        requires
            params.wf(),
        ensures
            r.wf(),
            r.p_spec() == params.p_spec(),
            r.vals_spec().len() == params.s_spec(),
    {
        let s = params.get_s();
        let p = params.get_p();
        let mut vals: Vec<u128> = Vec::new();
        let mut i: usize = 0;
        while i < s
            invariant
                i <= s,
                2 <= p,
                vals@.len() == i,
                forall|k: int| 0 <= k < i ==> vals@[k] < p,
            decreases s - i,
        {
            vals.push(gen_below(rng, p));
            i = i + 1;
        }
        let r = Self { vals, p };
        proof {
            assert(all_below(r.vals_spec(), r.p_spec()));
        }
        r
    }

    pub fn len(&self) -> (r: usize)
        ensures
            r == self.vals_spec().len(),
    {
        self.vals.len()
    }

    pub fn get_p(&self) -> (r: u128)
        ensures
            r == self.p_spec(),
    {
        self.p
    }

    pub fn val_at(&self, i: usize) -> (r: u128)
        requires
            i < self.vals_spec().len(),
        ensures
            r == self.vals_spec()[i as int],
    {
        self.vals[i]
    }

    /// Componentwise sum in F_p.
    pub fn add(&self, other: &Self) -> (r: Self)
        requires
            self.wf(),
            other.wf(),
            self.p_spec() == other.p_spec(),
            self.vals_spec().len() == other.vals_spec().len(),
        ensures
            r.wf(),
            r.p_spec() == self.p_spec(),
            r.vals_spec() == padd(self.vals_spec(), other.vals_spec(), self.p_spec()),
    {
        proof {
            assert forall|k: int| 0 <= k < self.vals@.len() implies self.vals@[k] < self.p by {
                assert(self.vals@[k] as int == self.vals_spec()[k]);
            }
            assert forall|k: int| 0 <= k < other.vals@.len() implies other.vals@[k] < other.p by {
                assert(other.vals@[k] as int == other.vals_spec()[k]);
            }
        }
        let vals = padd_exec(&self.vals, &other.vals, self.p);
        let r = Self { vals, p: self.p };
        proof {
            assert(all_below(r.vals_spec(), r.p_spec()));
        }
        r
    }

    /// Componentwise difference in F_p.
    pub fn sub(&self, other: &Self) -> (r: Self)
        requires
            self.wf(),
            other.wf(),
            self.p_spec() == other.p_spec(),
            self.vals_spec().len() == other.vals_spec().len(),
        ensures
            r.wf(),
            r.p_spec() == self.p_spec(),
            r.vals_spec() == crate::ring::psub(self.vals_spec(), other.vals_spec(), self.p_spec()),
    {
        let ghost target = crate::ring::psub(self.vals_spec(), other.vals_spec(), self.p_spec());
        let len = self.vals.len();
        let mut vals: Vec<u128> = Vec::new();
        let mut i: usize = 0;
        while i < len
            invariant
                i <= len,
                len == self.vals_spec().len() == other.vals_spec().len(),
                self.wf(),
                other.wf(),
                self.p_spec() == other.p_spec(),
                target == crate::ring::psub(
                    self.vals_spec(),
                    other.vals_spec(),
                    self.p_spec(),
                ),
                vals@.len() == i,
                forall|k: int| 0 <= k < i ==> vals@[k] < self.p,
                forall|k: int| 0 <= k < i ==> vals@[k] as int == target[k],
            decreases len - i,
        {
            proof {
                assert(self.vals@[i as int] as int == self.vals_spec()[i as int]);
                assert(other.vals@[i as int] as int == other.vals_spec()[i as int]);
            }
            let v = sub_mod(self.vals[i], other.vals[i], self.p);
            vals.push(v);
            i = i + 1;
        }
        let r = Self { vals, p: self.p };
        proof {
            assert(r.vals_spec() =~= target);
            assert(all_below(r.vals_spec(), r.p_spec()));
        }
        r
    }

    /// Componentwise negation in F_p.
    pub fn neg(&self) -> (r: Self)
        requires
            self.wf(),
        ensures
            r.wf(),
            r.p_spec() == self.p_spec(),
            r.vals_spec() == crate::ring::pneg(self.vals_spec(), self.p_spec()),
    {
        let ghost target = crate::ring::pneg(self.vals_spec(), self.p_spec());
        let len = self.vals.len();
        let mut vals: Vec<u128> = Vec::new();
        let mut i: usize = 0;
        while i < len
            invariant
                i <= len,
                len == self.vals_spec().len(),
                self.wf(),
                target == crate::ring::pneg(self.vals_spec(), self.p_spec()),
                vals@.len() == i,
                forall|k: int| 0 <= k < i ==> vals@[k] < self.p,
                forall|k: int| 0 <= k < i ==> vals@[k] as int == target[k],
            decreases len - i,
        {
            proof {
                assert(self.vals@[i as int] as int == self.vals_spec()[i as int]);
            }
            let v = sub_mod(0, self.vals[i], self.p);
            vals.push(v);
            i = i + 1;
        }
        let r = Self { vals, p: self.p };
        proof {
            assert(r.vals_spec() =~= target);
            assert(all_below(r.vals_spec(), r.p_spec()));
        }
        r
    }

    /// Componentwise (slotwise) product in F_p.
    pub fn mul(&self, other: &Self) -> (r: Self)
        requires
            self.wf(),
            other.wf(),
            self.p_spec() == other.p_spec(),
            self.vals_spec().len() == other.vals_spec().len(),
        ensures
            r.wf(),
            r.p_spec() == self.p_spec(),
            r.vals_spec() == pmul(self.vals_spec(), other.vals_spec(), self.p_spec()),
    {
        let ghost target = pmul(self.vals_spec(), other.vals_spec(), self.p_spec());
        let len = self.vals.len();
        let mut vals: Vec<u128> = Vec::new();
        let mut i: usize = 0;
        while i < len
            invariant
                i <= len,
                len == self.vals_spec().len() == other.vals_spec().len(),
                self.wf(),
                other.wf(),
                self.p_spec() == other.p_spec(),
                target == pmul(self.vals_spec(), other.vals_spec(), self.p_spec()),
                vals@.len() == i,
                forall|k: int| 0 <= k < i ==> vals@[k] < self.p,
                forall|k: int| 0 <= k < i ==> vals@[k] as int == target[k],
            decreases len - i,
        {
            proof {
                assert(self.vals@[i as int] as int == self.vals_spec()[i as int]);
                assert(other.vals@[i as int] as int == other.vals_spec()[i as int]);
            }
            let v = mul_mod(self.vals[i], other.vals[i], self.p);
            vals.push(v);
            i = i + 1;
        }
        let r = Self { vals, p: self.p };
        proof {
            assert(r.vals_spec() =~= target);
            assert(all_below(r.vals_spec(), r.p_spec()));
        }
        r
    }

    /// Slotwise comparison (the moduli are not compared).
    pub fn equals(&self, other: &Self) -> (r: bool)
        ensures
            r <==> self.vals_spec() == other.vals_spec(),
    {
        let la = self.vals.len();
        let lb = other.vals.len();
        if la != lb {
            proof {
                assert(self.vals_spec().len() != other.vals_spec().len());
            }
            return false;
        }
        let mut t: usize = 0;
        while t < la
            invariant
                t <= la,
                la == self.vals_spec().len(),
                la == other.vals_spec().len(),
                forall|k: int| 0 <= k < t ==> self.vals_spec()[k] == other.vals_spec()[k],
            decreases la - t,
        {
            proof {
                assert(self.vals@[t as int] as int == self.vals_spec()[t as int]);
                assert(other.vals@[t as int] as int == other.vals_spec()[t as int]);
            }
            if self.vals[t] != other.vals[t] {
                return false;
            }
            t = t + 1;
        }
        proof {
            assert(self.vals_spec() =~= other.vals_spec());
        }
        true
    }

    /// Packs the plaintext as the polynomial of degree below `s` whose
    /// evaluation at the `t`-th packing point is slot `t`; the coefficients
    /// (residues below `p`) are carried in the mod-`q` ring.  The round trip
    /// is part of the contract: decoding the result yields the plaintext.
    pub fn encode(&self, she_params: &SHEParameters) -> (r: Encodedtext)
        requires
            self.wf(),
            she_params.wf(),
            self.p_spec() == she_params.p_spec(),
            self.vals_spec().len() == she_params.s_spec(),
        ensures
            r.wf(),
            r.q_spec() == she_params.q_spec(),
            r.coeffs().len() == she_params.n_spec(),
            all_below(r.coeffs(), she_params.p_spec()),
            forall|t: int|
                0 <= t < she_params.s_spec() ==> eval_at(
                    r.coeffs(),
                    #[trigger] she_params.points_spec()[t],
                    she_params.p_spec(),
                ) == self.vals_spec()[t],
            decode_spec(r.coeffs(), she_params.q_spec(), she_params) == self.vals_spec(),
    {
        let s = she_params.get_s();
        let p = she_params.get_p();
        let ghost pts = she_params.points_spec();
        let ghost gp = p as int;
        let mut acc: Vec<u128> = Vec::new();
        let mut z: usize = 0;
        while z < s
            invariant
                z <= s,
                acc@.len() == z,
                forall|k: int| 0 <= k < z ==> acc@[k] == 0u128,
            decreases s - z,
        {
            acc.push(0);
            z = z + 1;
        }
        proof {
            assert(acc@.map(|_i: int, v: u128| v as int) =~= crate::ring::zero_seq(s as nat));
            assert forall|t: int| 0 <= t < s implies eval_at(
                acc@.map(|_i: int, v: u128| v as int),
                pts[t],
                gp,
            ) == 0 by {
                lemma_eval_zero(s as nat, pts[t], gp);
            }
        }
        let mut i: usize = 0;
        while i < s
            invariant
                i <= s,
                s == she_params.s_spec(),
                p == she_params.p_spec(),
                gp == p as int,
                pts == she_params.points_spec(),
                self.wf(),
                she_params.wf(),
                self.p_spec() == she_params.p_spec(),
                self.vals_spec().len() == s,
                acc@.len() == s,
                forall|k: int| 0 <= k < s ==> acc@[k] < p,
                forall|t: int|
                    0 <= t < s ==> eval_at(
                        acc@.map(|_i: int, v: u128| v as int),
                        #[trigger] pts[t],
                        gp,
                    ) == if t < i {
                        self.vals_spec()[t]
                    } else {
                        0int
                    },
            decreases s - i,
        {
            // numerator: product of (X - pts[j]) over j != i
            let mut num: Vec<u128> = Vec::new();
            let one: u128 = 1 % p;
            num.push(one);
            proof {
                lemma_small_mod(1nat, p as nat);
                let numm = num@.map(|_i: int, v: u128| v as int);
                assert(numm =~= seq![1int]);
                assert(numm.subrange(1, 1) =~= Seq::<int>::empty());
                assert forall|t: int| 0 <= t < s implies eval_at(numm, #[trigger] pts[t], gp)
                    == 1int % gp by {
                    assert(numm[0] == 1);
                    assert(numm.len() == 1);
                    assert(eval_at(numm.subrange(1, 1), pts[t], gp) == 0);
                    assert(eval_at(numm, pts[t], gp) == (1 + pts[t] * 0) % gp);
                }
                assert(den_prefix(pts, i as int, gp, 0) == 1int % gp);
            }
            let mut j: usize = 0;
            while j < s
                invariant
                    j <= s,
                    i < s,
                    s == she_params.s_spec(),
                    p == she_params.p_spec(),
                    gp == p as int,
                    pts == she_params.points_spec(),
                    she_params.wf(),
                    num@.len() == 1 + j - (if j > i {
                        1int
                    } else {
                        0int
                    }),
                    forall|k: int| 0 <= k < num@.len() ==> num@[k] < p,
                    eval_at(num@.map(|_i: int, v: u128| v as int), pts[i as int], gp)
                        == den_prefix(pts, i as int, gp, j as nat),
                    forall|t: int|
                        0 <= t < s && t != i && t < j ==> eval_at(
                            num@.map(|_i: int, v: u128| v as int),
                            #[trigger] pts[t],
                            gp,
                        ) == 0,
                decreases s - j,
            {
                if j != i {
                    let ghost oldm = num@.map(|_i: int, v: u128| v as int);
                    let pj = she_params.point_at(j);
                    num = mul_linear(&num, pj, p);
                    proof {
                        let newm = num@.map(|_i: int, v: u128| v as int);
                        assert(newm == mul_linear_spec(oldm, pts[j as int], gp));
                        assert forall|t: int| 0 <= t < s implies eval_at(
                            newm,
                            #[trigger] pts[t],
                            gp,
                        ) == ((pts[t] - pts[j as int]) * eval_at(oldm, pts[t], gp)) % gp by {
                            lemma_eval_mul_linear(oldm, pts[j as int], pts[t], gp);
                        }
                        // at the own point: extends the denominator prefix
                        let d = den_prefix(pts, i as int, gp, j as nat);
                        lemma_mul_mod_noop_left(pts[i as int] - pts[j as int], d, gp);
                        lemma_mul_is_commutative(d, (pts[i as int] - pts[j as int]) % gp);
                        lemma_mul_mod_noop_right(d, pts[i as int] - pts[j as int], gp);
                        lemma_mul_is_commutative(d, pts[i as int] - pts[j as int]);
                        assert(eval_at(newm, pts[i as int], gp) == den_prefix(
                            pts,
                            i as int,
                            gp,
                            (j + 1) as nat,
                        ));
                        // at processed points (and the new one): zero
                        assert forall|t: int| 0 <= t < s && t != i && t < j + 1 implies
                            eval_at(newm, #[trigger] pts[t], gp) == 0 by {
                            if t < j {
                                assert(((pts[t] - pts[j as int]) * 0) % gp == 0) by {
                                    lemma_small_mod(0nat, gp as nat);
                                }
                            } else {
                                assert(t == j);
                                assert(((pts[t] - pts[j as int]) * eval_at(oldm, pts[t], gp))
                                    == 0);
                                lemma_small_mod(0nat, gp as nat);
                            }
                        }
                    }
                } else {
                    proof {
                        assert(den_prefix(pts, i as int, gp, (j + 1) as nat) == den_prefix(
                            pts,
                            i as int,
                            gp,
                            j as nat,
                        ));
                    }
                }
                j = j + 1;
            }
            proof {
                assert(num@.len() == s);
            }
            // scale the numerator by slot * (denominator inverse)
            proof {
                assert(self.vals@[i as int] as int == self.vals_spec()[i as int]);
            }
            let coef = mul_mod(self.vals[i], she_params.lag_inv_at(i), p);
            let scaled = pscale_exec(&num, coef, p);
            let ghost pi = self.vals_spec()[i as int];
            let ghost inv = she_params.lag_inv_spec()[i as int];
            let ghost den = lag_den(pts, i as int, gp);
            proof {
                let numm = num@.map(|_i: int, v: u128| v as int);
                let scm = scaled@.map(|_i: int, v: u128| v as int);
                assert forall|t: int| 0 <= t < s implies eval_at(scm, #[trigger] pts[t], gp)
                    == ((pi * inv) % gp * eval_at(numm, pts[t], gp)) % gp by {
                    lemma_eval_scale(numm, (pi * inv) % gp, pts[t], gp);
                }
                // at the own point the denominator cancels its inverse
                assert(pts.len() == s);
                assert(eval_at(numm, pts[i as int], gp) == den_prefix(pts, i as int, gp, s as nat));
                assert(den == den_prefix(pts, i as int, gp, s as nat));
                assert(eval_at(scm, pts[i as int], gp) == ((pi * inv) % gp * den) % gp);
                lemma_mul_mod_noop_left(pi * inv, den, gp);
                lemma_mul_is_associative(pi, inv, den);
                lemma_mul_mod_noop_right(pi, inv * den, gp);
                lemma_mul_is_commutative(inv, den);
                assert(fmul(den, inv, gp) == 1);
                assert((inv * den) % gp == 1);
                assert(((pi * inv) % gp * den) % gp == (pi * (inv * den)) % gp);
                assert((pi * (inv * den)) % gp == (pi * ((inv * den) % gp)) % gp);
                lemma_small_mod(pi as nat, gp as nat);
                assert(eval_at(scm, pts[i as int], gp) == pi);
                // elsewhere it stays zero
                assert forall|t: int| 0 <= t < s && t != i implies eval_at(
                    scm,
                    #[trigger] pts[t],
                    gp,
                ) == 0 by {
                    assert(eval_at(numm, pts[t], gp) == 0);
                    assert(((pi * inv) % gp * 0) % gp == 0) by {
                        lemma_small_mod(0nat, gp as nat);
                    }
                }
            }
            let ghost oldacc = acc@.map(|_i: int, v: u128| v as int);
            acc = padd_exec(&acc, &scaled, p);
            proof {
                let newacc = acc@.map(|_i: int, v: u128| v as int);
                let scm = scaled@.map(|_i: int, v: u128| v as int);
                assert(newacc == padd(oldacc, scm, gp));
                assert forall|t: int| 0 <= t < s implies eval_at(newacc, #[trigger] pts[t], gp)
                    == (if t < i + 1 {
                    self.vals_spec()[t]
                } else {
                    0int
                }) by {
                    lemma_eval_add(oldacc, scm, pts[t], gp);
                    if t < i {
                        lemma_small_mod(self.vals_spec()[t] as nat, gp as nat);
                    } else if t == i {
                        lemma_small_mod(pi as nat, gp as nat);
                    } else {
                        lemma_small_mod(0nat, gp as nat);
                    }
                }
            }
            i = i + 1;
        }
        let q = she_params.get_q();
        proof {
            assert(forall|k: int| 0 <= k < acc@.len() ==> acc@[k] < q);
        }
        let r = Encodedtext::new(acc, q);
        proof {
            assert(all_below(r.coeffs(), she_params.p_spec()));
            // the coefficients are small, so balancing and reducing mod p fix them
            let c = r.coeffs();
            assert(balp(c, q as int, gp) =~= c) by {
                assert forall|k: int| 0 <= k < c.len() implies balp(c, q as int, gp)[k] == c[k]
                    by {
                    assert(0 <= c[k] < p);
                    assert(2 * c[k] <= q);
                    assert(bal(c[k], q as int) == c[k]);
                    lemma_small_mod(c[k] as nat, gp as nat);
                }
            }
            assert(decode_spec(c, she_params.q_spec(), she_params) =~= self.vals_spec());
        }
        r
    }
}

/// A single plaintext value over F_p.
#[derive(Clone, Copy)]
pub struct Plaintext {
    pub val: u128,
    pub p: u128,
}

impl Plaintext {
    pub open spec fn wf(&self) -> bool {
        2 <= self.p as int <= modulus_bound() && (self.val as int) < self.p as int
    }

    pub fn new(val: u128, p: u128) -> (r: Self)
        requires
            2 <= p <= modulus_bound(),
            val < p,
        ensures
            r.wf(),
            r.val == val,
            r.p == p,
    {
        Self { val, p }
    }
}

/// A value that can be spread across every packing slot.
pub trait Plaintextish {
    /// The field modulus the value lives in.
    spec fn diag_p(&self) -> int;

    /// The value itself.
    spec fn diag_val(&self) -> int;

    /// Replicates the value into a plaintext vector of the given length.
    fn diagonalize(&self, length: usize) -> (r: Plaintexts)
        ensures
            r.wf(),
            r.vals_spec().len() == length,
            (2 <= self.diag_p() <= modulus_bound() && 0 <= self.diag_val() < self.diag_p())
                ==> r.p_spec() == self.diag_p() && (forall|i: int|
                0 <= i < length ==> #[trigger] r.vals_spec()[i] == self.diag_val()),
    ;
}

impl Plaintextish for Plaintext {
    open spec fn diag_p(&self) -> int {
        self.p as int
    }

    open spec fn diag_val(&self) -> int {
        self.val as int
    }

    fn diagonalize(&self, length: usize) -> (r: Plaintexts) {
        let mut vals: Vec<u128> = Vec::new();
        let mut i: usize = 0;
        let p: u128 = if self.p < 2 {
            2
        } else {
            self.p
        };
        let v: u128 = if self.val < p {
            self.val
        } else {
            0
        };
        let pb: u128 = 0x8000_0000_0000_0000_0000_0000_0000_0000;
        let p2: u128 = if p > pb {
            2
        } else {
            p
        };
        let v2: u128 = if v < p2 {
            v
        } else {
            0
        };
        while i < length
            invariant
                i <= length,
                v2 < p2,
                2 <= p2 <= modulus_bound(),
                vals@.len() == i,
                forall|k: int| 0 <= k < i ==> vals@[k] == v2,
                forall|k: int| 0 <= k < i ==> vals@[k] < p2,
            decreases length - i,
        {
            vals.push(v2);
            i = i + 1;
        }
        proof {
            if 2 <= self.p as int <= modulus_bound() && (self.val as int) < self.p as int {
                assert(p2 == self.p);
                assert(v2 == self.val);
            }
        }
        Plaintexts::from_vec(vals, p2)
    }
}

impl Encodedtext {
    /// Unpacks a ring element: each coefficient is balanced and reduced mod
    /// `p`, and the resulting polynomial is evaluated at the packing points.
    pub fn decode(&self, she_params: &SHEParameters) -> (r: Plaintexts)
        requires
            self.wf(),
            she_params.wf(),
            self.q_spec() == she_params.q_spec(),
        ensures
            r.wf(),
            r.p_spec() == she_params.p_spec(),
            r.vals_spec() == decode_spec(self.coeffs(), self.q_spec(), she_params),
    {
        let p = she_params.get_p();
        let q = self.get_q();
        let len = self.get_degree();
        let ghost target_red = balp(self.coeffs(), self.q_spec(), she_params.p_spec());
        let mut reduced: Vec<u128> = Vec::new();
        let mut i: usize = 0;
        while i < len
            invariant
                i <= len,
                len == self.coeffs().len(),
                self.wf(),
                she_params.wf(),
                p == she_params.p_spec(),
                q == self.q_spec(),
                self.q_spec() == she_params.q_spec(),
                target_red == balp(self.coeffs(), self.q_spec(), she_params.p_spec()),
                reduced@.len() == i,
                forall|k: int| 0 <= k < i ==> reduced@[k] < p,
                forall|k: int| 0 <= k < i ==> reduced@[k] as int == target_red[k],
            decreases len - i,
        {
            let v = bal_mod(self.coeff_at(i), q, p);
            reduced.push(v);
            i = i + 1;
        }
        proof {
            assert(reduced@.map(|_i: int, v: u128| v as int) =~= target_red);
        }
        let s = she_params.get_s();
        let ghost target = decode_spec(self.coeffs(), self.q_spec(), she_params);
        let mut vals: Vec<u128> = Vec::new();
        let mut t: usize = 0;
        while t < s
            invariant
                t <= s,
                s == she_params.s_spec(),
                she_params.wf(),
                p == she_params.p_spec(),
                reduced@.map(|_i: int, v: u128| v as int) == target_red,
                forall|k: int| 0 <= k < reduced@.len() ==> reduced@[k] < p,
                target == decode_spec(self.coeffs(), self.q_spec(), she_params),
                target_red == balp(self.coeffs(), self.q_spec(), she_params.p_spec()),
                vals@.len() == t,
                forall|k: int| 0 <= k < t ==> vals@[k] < p,
                forall|k: int| 0 <= k < t ==> vals@[k] as int == target[k],
            decreases s - t,
        {
            let x = she_params.point_at(t);
            let v = substitute(&reduced, x, p);
            vals.push(v);
            t = t + 1;
        }
        let r = Plaintexts { vals, p };
        proof {
            assert(r.vals_spec() =~= target);
            assert(all_below(r.vals_spec(), r.p_spec()));
        }
        r
    }
}

} // verus!
