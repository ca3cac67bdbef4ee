//! The polynomial ring R_q = Z_q[X]/(X^L + 1), "encoded text".
//!
//! An element is a coefficient vector of length L over the residues mod q.
//! Multiplication is the negacyclic convolution: the full product is folded
//! once by the rule X^{L+i} = -X^i.

use vstd::prelude::*;
use vstd::arithmetic::div_mod::{
    lemma_small_mod, lemma_mod_bound, lemma_add_mod_noop, lemma_add_mod_noop_right,
    lemma_sub_mod_noop, lemma_mul_mod_noop_left, lemma_mul_mod_noop_right, lemma_mod_twice,
};
use crate::arith::{
    fadd, fsub, fmul, bal, abs_int, modulus_bound, add_mod, sub_mod, mul_mod, bal_abs, bal_mod,
    lift_i128,
};
use crate::rng::gen_below;

verus! {

pub open spec fn nat_max(a: nat, b: nat) -> nat {
    if a >= b {
        a
    } else {
        b
    }
}

/// Every entry of `s` is a reduced residue mod `q`.
pub open spec fn all_below(s: Seq<int>, q: int) -> bool {
    forall|i: int| 0 <= i < s.len() ==> 0 <= #[trigger] s[i] < q
}

/// The all-zero coefficient vector of length `n`.
pub open spec fn zero_seq(n: nat) -> Seq<int> {
    Seq::new(n, |i: int| 0int)
}

/// `a` padded with zero coefficients up to length `l`.
pub open spec fn pad_seq(a: Seq<int>, l: nat) -> Seq<int> {
    Seq::new(l, |i: int| if i < a.len() {
        a[i]
    } else {
        0int
    })
}

/// Pointwise modular sum (both operands already of equal length).
pub open spec fn padd(a: Seq<int>, b: Seq<int>, q: int) -> Seq<int> {
    Seq::new(a.len(), |i: int| fadd(a[i], b[i], q))
}

/// Pointwise modular difference.
pub open spec fn psub(a: Seq<int>, b: Seq<int>, q: int) -> Seq<int> {
    Seq::new(a.len(), |i: int| fsub(a[i], b[i], q))
}

/// Pointwise modular negation.
pub open spec fn pneg(a: Seq<int>, q: int) -> Seq<int> {
    Seq::new(a.len(), |i: int| (0 - a[i]) % q)
}

/// Every coefficient scaled by the integer `c`, mod `q`.
pub open spec fn pscale(a: Seq<int>, c: int, q: int) -> Seq<int> {
    Seq::new(a.len(), |i: int| (c * a[i]) % q)
}

/// Partial convolution sum: the contribution of rows `0 .. i` of `a` to the
/// full-product coefficient of `X^k`.
pub open spec fn csum(a: Seq<int>, b: Seq<int>, k: int, i: nat) -> int
    decreases i,
{
    if i == 0 {
        0int
    } else {
        csum(a, b, k, (i - 1) as nat) + if 0 <= k - (i - 1) < b.len() {
            a[i - 1] * b[k - (i - 1)]
        } else {
            0int
        }
    }
}

/// Coefficient of `X^k` in the full (unreduced) product of `a` and `b`.
pub open spec fn conv_at(a: Seq<int>, b: Seq<int>, k: int) -> int {
    csum(a, b, k, a.len())
}

/// The negacyclic product of `a` and `b`, folded to length
/// `max(|a|, |b|)` by `X^{L+i} = -X^i` and reduced mod `q`.
pub open spec fn neg_mul(a: Seq<int>, b: Seq<int>, q: int) -> Seq<int> {
    let l = nat_max(a.len(), b.len());
    Seq::new(l, |t: int| (conv_at(a, b, t) - conv_at(a, b, t + l)) % q)
}

/// Largest magnitude of a balanced coefficient among the first `i`.
pub open spec fn norm_prefix(a: Seq<int>, q: int, i: nat) -> int
    decreases i,
{
    if i == 0 {
        0int
    } else {
        let prev = norm_prefix(a, q, (i - 1) as nat);
        let cur = abs_int(bal(a[i - 1], q));
        if cur > prev {
            cur
        } else {
            prev
        }
    }
}

/// The infinity norm of the balanced representative of `a`.
pub open spec fn norm_spec(a: Seq<int>, q: int) -> int {
    norm_prefix(a, q, a.len())
}

/// Pointwise integer sum, without reduction.
pub open spec fn praw(a: Seq<int>, b: Seq<int>) -> Seq<int> {
    Seq::new(a.len(), |i: int| a[i] + b[i])
}

/// The convolution sum is additive in its left operand.
pub proof fn lemma_csum_add_left(a: Seq<int>, a2: Seq<int>, b: Seq<int>, k: int, i: nat)
    requires
        a.len() == a2.len(),
        i <= a.len(),
    ensures
        csum(praw(a, a2), b, k, i) == csum(a, b, k, i) + csum(a2, b, k, i),
    decreases i,
{
    if i > 0 {
        lemma_csum_add_left(a, a2, b, k, (i - 1) as nat);
        if 0 <= k - (i - 1) < b.len() {
            vstd::arithmetic::mul::lemma_mul_is_distributive_add_other_way(
                b[k - (i - 1)],
                a[i - 1],
                a2[i - 1],
            );
        }
    }
}

/// The convolution sum only depends on the left operand's residues.
pub proof fn lemma_csum_congruent_left(
    a: Seq<int>,
    a2: Seq<int>,
    b: Seq<int>,
    k: int,
    i: nat,
    q: int,
)
    requires
        1 <= q,
        a.len() == a2.len(),
        i <= a.len(),
        forall|j: int| 0 <= j < a.len() ==> #[trigger] a[j] % q == a2[j] % q,
    ensures
        csum(a, b, k, i) % q == csum(a2, b, k, i) % q,
    decreases i,
{
    if i > 0 {
        lemma_csum_congruent_left(a, a2, b, k, (i - 1) as nat, q);
        let p1 = csum(a, b, k, (i - 1) as nat);
        let p2 = csum(a2, b, k, (i - 1) as nat);
        if 0 <= k - (i - 1) < b.len() {
            let t1 = a[i - 1] * b[k - (i - 1)];
            let t2 = a2[i - 1] * b[k - (i - 1)];
            lemma_mul_mod_noop_left(a[i - 1], b[k - (i - 1)], q);
            lemma_mul_mod_noop_left(a2[i - 1], b[k - (i - 1)], q);
            assert(t1 % q == t2 % q);
            lemma_add_mod_noop(p1, t1, q);
            lemma_add_mod_noop(p2, t2, q);
            assert((p1 + t1) % q == (p1 % q + t1 % q) % q);
            assert((p2 + t2) % q == (p2 % q + t2 % q) % q);
        } else {
            assert(csum(a, b, k, i) == p1);
            assert(csum(a2, b, k, i) == p2);
        }
    }
}

/// The negacyclic product is additive in its left operand (all operands of
/// one length).
pub proof fn lemma_neg_mul_add_left(a: Seq<int>, a2: Seq<int>, b: Seq<int>, q: int)
    requires
        1 <= q,
        a.len() == a2.len(),
        b.len() == a.len(),
    ensures
        neg_mul(padd(a, a2, q), b, q) == padd(neg_mul(a, b, q), neg_mul(a2, b, q), q),
    decreases a.len(),
{
    let l = a.len() as int;
    let s = padd(a, a2, q);
    let r = praw(a, a2);
    assert forall|j: int| 0 <= j < s.len() implies #[trigger] s[j] % q == r[j] % q by {
        lemma_mod_twice(a[j] + a2[j], q);
    }
    assert forall|t: int| 0 <= t < l implies neg_mul(s, b, q)[t] == padd(
        neg_mul(a, b, q),
        neg_mul(a2, b, q),
        q,
    )[t] by {
        let x1 = conv_at(a, b, t);
        let x2 = conv_at(a2, b, t);
        let y1 = conv_at(a, b, t + l);
        let y2 = conv_at(a2, b, t + l);
        lemma_csum_congruent_left(s, r, b, t, s.len(), q);
        lemma_csum_congruent_left(s, r, b, t + l, s.len(), q);
        lemma_csum_add_left(a, a2, b, t, a.len());
        lemma_csum_add_left(a, a2, b, t + l, a.len());
        assert(conv_at(s, b, t) % q == (x1 + x2) % q);
        assert(conv_at(s, b, t + l) % q == (y1 + y2) % q);
        // (X - Y) % q == (x1 + x2 - y1 - y2) % q
        lemma_sub_mod_noop(conv_at(s, b, t), conv_at(s, b, t + l), q);
        lemma_sub_mod_noop(x1 + x2, y1 + y2, q);
        assert((conv_at(s, b, t) - conv_at(s, b, t + l)) % q == ((x1 + x2) - (y1 + y2)) % q);
        // the right side joins the two reduced differences
        lemma_add_mod_noop(x1 - y1, x2 - y2, q);
        assert(((x1 - y1) % q + (x2 - y2) % q) % q == ((x1 - y1) + (x2 - y2)) % q);
    }
    assert(neg_mul(s, b, q) =~= padd(neg_mul(a, b, q), neg_mul(a2, b, q), q));
}

/// The convolution sum is additive in its right operand.
pub proof fn lemma_csum_add_right(a: Seq<int>, b: Seq<int>, b2: Seq<int>, k: int, i: nat)
    requires
        b.len() == b2.len(),
    ensures
        csum(a, praw(b, b2), k, i) == csum(a, b, k, i) + csum(a, b2, k, i),
    decreases i,
{
    if i > 0 {
        lemma_csum_add_right(a, b, b2, k, (i - 1) as nat);
        if 0 <= k - (i - 1) < b.len() {
            vstd::arithmetic::mul::lemma_mul_is_distributive_add(
                a[i - 1],
                b[k - (i - 1)],
                b2[k - (i - 1)],
            );
        }
    }
}

/// The convolution sum only depends on the right operand's residues.
pub proof fn lemma_csum_congruent_right(
    a: Seq<int>,
    b: Seq<int>,
    b2: Seq<int>,
    k: int,
    i: nat,
    q: int,
)
    requires
        1 <= q,
        b.len() == b2.len(),
        forall|j: int| 0 <= j < b.len() ==> #[trigger] b[j] % q == b2[j] % q,
    ensures
        csum(a, b, k, i) % q == csum(a, b2, k, i) % q,
    decreases i,
{
    if i > 0 {
        lemma_csum_congruent_right(a, b, b2, k, (i - 1) as nat, q);
        let p1 = csum(a, b, k, (i - 1) as nat);
        let p2 = csum(a, b2, k, (i - 1) as nat);
        if 0 <= k - (i - 1) < b.len() {
            let t1 = a[i - 1] * b[k - (i - 1)];
            let t2 = a[i - 1] * b2[k - (i - 1)];
            lemma_mul_mod_noop_right(a[i - 1], b[k - (i - 1)], q);
            lemma_mul_mod_noop_right(a[i - 1], b2[k - (i - 1)], q);
            assert(t1 % q == t2 % q);
            lemma_add_mod_noop(p1, t1, q);
            lemma_add_mod_noop(p2, t2, q);
        }
    }
}

/// The negacyclic product is additive in its right operand (all operands
/// of one length).
pub proof fn lemma_neg_mul_add_right(a: Seq<int>, b: Seq<int>, b2: Seq<int>, q: int)
    requires
        1 <= q,
        b.len() == b2.len(),
        b.len() == a.len(),
    ensures
        neg_mul(a, padd(b, b2, q), q) == padd(neg_mul(a, b, q), neg_mul(a, b2, q), q),
{
    let l = a.len() as int;
    let s = padd(b, b2, q);
    let r = praw(b, b2);
    assert forall|j: int| 0 <= j < s.len() implies #[trigger] s[j] % q == r[j] % q by {
        lemma_mod_twice(b[j] + b2[j], q);
    }
    assert forall|t: int| 0 <= t < l implies neg_mul(a, s, q)[t] == padd(
        neg_mul(a, b, q),
        neg_mul(a, b2, q),
        q,
    )[t] by {
        let x1 = conv_at(a, b, t);
        let x2 = conv_at(a, b2, t);
        let y1 = conv_at(a, b, t + l);
        let y2 = conv_at(a, b2, t + l);
        lemma_csum_congruent_right(a, s, r, t, a.len(), q);
        lemma_csum_congruent_right(a, s, r, t + l, a.len(), q);
        lemma_csum_add_right(a, b, b2, t, a.len());
        lemma_csum_add_right(a, b, b2, t + l, a.len());
        lemma_sub_mod_noop(conv_at(a, s, t), conv_at(a, s, t + l), q);
        lemma_sub_mod_noop(x1 + x2, y1 + y2, q);
        lemma_add_mod_noop(x1 - y1, x2 - y2, q);
    }
    assert(neg_mul(a, s, q) =~= padd(neg_mul(a, b, q), neg_mul(a, b2, q), q));
}

/// A zero right operand annihilates the convolution sum.
pub proof fn lemma_csum_zero_right(a: Seq<int>, m: nat, k: int, i: nat)
    ensures
        csum(a, zero_seq(m), k, i) == 0,
    decreases i,
{
    if i > 0 {
        lemma_csum_zero_right(a, m, k, (i - 1) as nat);
        if 0 <= k - (i - 1) < m {
            vstd::arithmetic::mul::lemma_mul_by_zero_is_zero(a[i - 1]);
        }
    }
}

/// The negacyclic product with the zero element is zero.
pub proof fn lemma_neg_mul_zero_right(a: Seq<int>, q: int)
    requires
        1 <= q,
    ensures
        neg_mul(a, zero_seq(a.len()), q) == zero_seq(a.len()),
{
    let l = a.len() as int;
    assert forall|t: int| 0 <= t < l implies neg_mul(a, zero_seq(a.len()), q)[t] == 0int by {
        lemma_csum_zero_right(a, a.len(), t, a.len());
        lemma_csum_zero_right(a, a.len(), t + l, a.len());
        lemma_small_mod(0nat, q as nat);
    }
    assert(neg_mul(a, zero_seq(a.len()), q) =~= zero_seq(a.len()));
}

/// Scaling distributes over the pointwise modular sum.
pub proof fn lemma_pscale_add(v1: Seq<int>, v2: Seq<int>, c: int, q: int)
    requires
        1 <= q,
        v1.len() == v2.len(),
    ensures
        pscale(padd(v1, v2, q), c, q) == padd(pscale(v1, c, q), pscale(v2, c, q), q),
{
    assert forall|j: int| 0 <= j < v1.len() implies pscale(padd(v1, v2, q), c, q)[j] == padd(
        pscale(v1, c, q),
        pscale(v2, c, q),
        q,
    )[j] by {
        lemma_mul_mod_noop_right(c, v1[j] + v2[j], q);
        vstd::arithmetic::mul::lemma_mul_is_distributive_add(c, v1[j], v2[j]);
        lemma_add_mod_noop(c * v1[j], c * v2[j], q);
    }
    assert(pscale(padd(v1, v2, q), c, q) =~= padd(pscale(v1, c, q), pscale(v2, c, q), q));
}

/// Scaling the zero element gives the zero element.
pub proof fn lemma_pscale_zero(m: nat, c: int, q: int)
    requires
        1 <= q,
    ensures
        pscale(zero_seq(m), c, q) == zero_seq(m),
{
    assert forall|j: int| 0 <= j < m implies pscale(zero_seq(m), c, q)[j] == 0int by {
        vstd::arithmetic::mul::lemma_mul_by_zero_is_zero(c);
        lemma_small_mod(0nat, q as nat);
    }
    assert(pscale(zero_seq(m), c, q) =~= zero_seq(m));
}

/// Scaling by one returns any reduced element unchanged.
pub proof fn lemma_pscale_one(v: Seq<int>, q: int)
    requires
        1 <= q,
        all_below(v, q),
    ensures
        pscale(v, 1, q) == v,
{
    assert forall|j: int| 0 <= j < v.len() implies pscale(v, 1, q)[j] == v[j] by {
        lemma_small_mod(v[j] as nat, q as nat);
    }
    assert(pscale(v, 1, q) =~= v);
}

/// The zero element is the identity of the pointwise sum on reduced
/// elements.
pub proof fn lemma_padd_zero(v: Seq<int>, q: int)
    requires
        1 <= q,
        all_below(v, q),
    ensures
        padd(v, zero_seq(v.len()), q) == v,
        padd(zero_seq(v.len()), v, q) == v,
    decreases v.len(),
{
    assert forall|j: int| 0 <= j < v.len() implies padd(v, zero_seq(v.len()), q)[j] == v[j] by {
        lemma_small_mod(v[j] as nat, q as nat);
    }
    assert forall|j: int| 0 <= j < v.len() implies padd(zero_seq(v.len()), v, q)[j] == v[j] by {
        lemma_small_mod(v[j] as nat, q as nat);
    }
    assert(padd(v, zero_seq(v.len()), q) =~= v);
    assert(padd(zero_seq(v.len()), v, q) =~= v);
}

/// Regrouping of summed triples: adding two three-part sums part by part
/// gives the sum of the two grouped triples.
pub proof fn lemma_padd_rearrange(
    n1: Seq<int>,
    s1: Seq<int>,
    x1: Seq<int>,
    n2: Seq<int>,
    s2: Seq<int>,
    x2: Seq<int>,
    q: int,
)
    requires
        1 <= q,
        n1.len() == s1.len(),
        n1.len() == x1.len(),
        n1.len() == n2.len(),
        n1.len() == s2.len(),
        n1.len() == x2.len(),
    ensures
        padd(padd(padd(n1, n2, q), padd(s1, s2, q), q), padd(x1, x2, q), q) == padd(
            padd(padd(n1, s1, q), x1, q),
            padd(padd(n2, s2, q), x2, q),
            q,
        ),
{
    assert forall|j: int| 0 <= j < n1.len() implies padd(
        padd(padd(n1, n2, q), padd(s1, s2, q), q),
        padd(x1, x2, q),
        q,
    )[j] == padd(padd(padd(n1, s1, q), x1, q), padd(padd(n2, s2, q), x2, q), q)[j] by {
        let a = n1[j];
        let b = s1[j];
        let c = x1[j];
        let d = n2[j];
        let e = s2[j];
        let f = x2[j];
        // both sides reduce to (a + b + c + d + e + f) % q
        lemma_add_mod_noop(a + d, b + e, q);
        lemma_add_mod_noop(a + d + (b + e), c + f, q);
        lemma_add_mod_noop_right((a + d) % q + (b + e) % q, c + f, q);
        lemma_add_mod_noop_right((a + d) % q + (b + e) % q + ((c + f) % q), 0, q);
        assert(padd(padd(padd(n1, n2, q), padd(s1, s2, q), q), padd(x1, x2, q), q)[j] == (((a
            + d) % q + (b + e) % q) % q + (c + f) % q) % q);
        lemma_add_mod_noop_right(((a + d) % q + (b + e) % q) % q, c + f, q);
        lemma_add_mod_noop((a + d) % q + (b + e) % q, c + f, q);
        lemma_small_mod((((a + d) % q + (b + e) % q) % q) as nat, q as nat);
        assert((((a + d) % q + (b + e) % q) % q + (c + f) % q) % q == ((a + d) % q + (b + e) % q
            + (c + f)) % q) by {
            lemma_add_mod_noop_right((a + d) % q + (b + e) % q, c + f, q);
            lemma_add_mod_noop((a + d) % q + (b + e) % q, c + f, q);
            lemma_mod_twice((a + d) % q + (b + e) % q, q);
            lemma_add_mod_noop(((a + d) % q + (b + e) % q) % q, c + f, q);
            lemma_mod_twice(c + f, q);
        };
        lemma_add_mod_noop(a + d, b + e, q);
        lemma_add_mod_noop_right(a + d + (b + e), c + f, q);
        assert(((a + d) % q + (b + e) % q + (c + f)) % q == (((a + d) % q + (b + e) % q) + (c
            + f)) % q);
        lemma_add_mod_noop((a + d) % q, (b + e) % q, q);
        lemma_mod_twice(a + d, q);
        lemma_mod_twice(b + e, q);
        assert(((a + d) % q + (b + e) % q) % q == (a + d + b + e) % q);
        lemma_add_mod_noop(a + d + b + e, c + f, q);
        lemma_mod_twice(c + f, q);
        assert((((a + d) % q + (b + e) % q) + (c + f)) % q == (a + b + c + d + e + f) % q) by {
            lemma_add_mod_noop((a + d) % q + (b + e) % q, c + f, q);
            lemma_mod_twice((a + d) % q + (b + e) % q, q);
            lemma_add_mod_noop(a + d + b + e, c + f, q);
            lemma_mod_twice(c + f, q);
            assert(((a + d) % q + (b + e) % q) % q == (a + d + b + e) % q);
        };
        // right side
        lemma_add_mod_noop(a, b, q);
        lemma_add_mod_noop_right((a + b) % q, c, q);
        lemma_mod_twice(a + b, q);
        lemma_add_mod_noop((a + b) % q, c, q);
        assert(((a + b) % q + c) % q == (a + b + c) % q) by {
            lemma_add_mod_noop_right((a + b) % q, c, q);
            lemma_mod_twice(a + b, q);
            lemma_add_mod_noop((a + b) % q, c, q);
            lemma_small_mod((((a + b) % q)) as nat, q as nat);
            lemma_add_mod_noop(a + b, c, q);
            lemma_mod_twice(c, q);
        };
        lemma_add_mod_noop(d, e, q);
        assert(((d + e) % q + f) % q == (d + e + f) % q) by {
            lemma_add_mod_noop((d + e) % q, f, q);
            lemma_mod_twice(d + e, q);
            lemma_add_mod_noop(d + e, f, q);
            lemma_mod_twice(f, q);
        };
        lemma_add_mod_noop(a + b + c, d + e + f, q);
        assert(((a + b + c) % q + (d + e + f) % q) % q == (a + b + c + d + e + f) % q);
    }
    assert(padd(padd(padd(n1, n2, q), padd(s1, s2, q), q), padd(x1, x2, q), q) =~= padd(
        padd(padd(n1, s1, q), x1, q),
        padd(padd(n2, s2, q), x2, q),
        q,
    ));
}

/// The convolution sum reads only the rows below `i`.
pub proof fn lemma_csum_ignores_high(a: Seq<int>, a2: Seq<int>, b: Seq<int>, k: int, i: nat)
    requires
        i <= a.len(),
        i <= a2.len(),
        forall|j: int| 0 <= j < i ==> #[trigger] a[j] == a2[j],
    ensures
        csum(a, b, k, i) == csum(a2, b, k, i),
    decreases i,
{
    if i > 0 {
        lemma_csum_ignores_high(a, a2, b, k, (i - 1) as nat);
    }
}

/// Bound on the convolution sum of two bounded sequences.
pub proof fn lemma_csum_bound(a: Seq<int>, b: Seq<int>, k: int, i: nat, m: int)
    requires
        0 <= m,
        i <= a.len(),
        forall|j: int| 0 <= j < a.len() ==> 0 <= #[trigger] a[j] < m,
        forall|j: int| 0 <= j < b.len() ==> 0 <= #[trigger] b[j] < m,
    ensures
        0 <= csum(a, b, k, i) <= i * m * m,
    decreases i,
{
    if i > 0 {
        lemma_csum_bound(a, b, k, (i - 1) as nat, m);
        if 0 <= k - (i - 1) < b.len() {
            assert(0 <= a[i - 1] * b[k - (i - 1)] <= m * m) by (nonlinear_arith)
                requires
                    0 <= a[i - 1] < m,
                    0 <= b[k - (i - 1)] < m,
            ;
        }
        assert((i - 1) * m * m + m * m == i * m * m) by (nonlinear_arith);
    }
}

/// Beyond the highest product degree every convolution coefficient vanishes.
pub proof fn lemma_conv_at_zero(a: Seq<int>, b: Seq<int>, k: int, i: nat)
    requires
        k >= i + b.len() - 1,
    ensures
        csum(a, b, k, i) == 0,
    decreases i,
{
    if i > 0 {
        lemma_conv_at_zero(a, b, k, (i - 1) as nat);
    }
}

/// An element of R_q: a coefficient vector over the residues mod `q`.
pub struct Encodedtext {
    vals: Vec<u128>,
    q: u128,
}

impl Clone for Encodedtext {
    fn clone(&self) -> (r: Self)
        ensures
            r.coeffs() == self.coeffs(),
            r.q_spec() == self.q_spec(),
            r.wf() == self.wf(),
    {
        let len = self.vals.len();
        let mut vals: Vec<u128> = Vec::new();
        let mut t: usize = 0;
        while t < len
            invariant
                t <= len,
                len == self.vals@.len(),
                vals@.len() == t,
                forall|k: int| 0 <= k < t ==> vals@[k] == self.vals@[k],
            decreases len - t,
        {
            vals.push(self.vals[t]);
            t = t + 1;
        }
        let r = Self { vals, q: self.q };
        proof {
            assert(r.vals@ =~= self.vals@);
            assert(r.coeffs() =~= self.coeffs());
        }
        r
    }
}

impl Encodedtext {
    /// The coefficients as mathematical integers.
    pub closed spec fn coeffs(&self) -> Seq<int> {
        self.vals@.map(|_i: int, v: u128| v as int)
    }

    /// The modulus as a mathematical integer.
    pub closed spec fn q_spec(&self) -> int {
        self.q as int
    }

    /// Well-formed: a usable modulus and reduced coefficients.
    pub open spec fn wf(&self) -> bool {
        2 <= self.q_spec() <= modulus_bound() && all_below(self.coeffs(), self.q_spec())
    }

    pub fn new(vals: Vec<u128>, q: u128) -> (r: Self)
        requires
            2 <= q <= modulus_bound(),
            forall|i: int| 0 <= i < vals@.len() ==> vals@[i] < q,
        ensures
            r.wf(),
            r.q_spec() == q,
            r.coeffs() == vals@.map(|_i: int, v: u128| v as int),
    {
        let r = Self { vals, q };
        proof {
            assert(all_below(r.coeffs(), r.q_spec()));
        }
        r
    }

    /// The zero element of the given degree.
    pub fn zero(degree: usize, q: u128) -> (r: Self)
        requires
            2 <= q <= modulus_bound(),
        ensures
            r.wf(),
            r.q_spec() == q,
            r.coeffs() == zero_seq(degree as nat),
    {
        let mut vals: Vec<u128> = Vec::new();
        let mut i: usize = 0;
        while i < degree
            invariant
                i <= degree,
                vals@.len() == i,
                forall|k: int| 0 <= k < i ==> vals@[k] == 0u128,
            decreases degree - i,
        {
            vals.push(0);
            i = i + 1;
        }
        let r = Self { vals, q };
        proof {
            assert(r.coeffs() =~= zero_seq(degree as nat));
        }
        r
    }

    /// A uniformly random element of the given degree.
    pub fn rand(degree: usize, q: u128, rng: &mut rand::rngs::StdRng) -> (r: Self)
        requires
            2 <= q <= modulus_bound(),
        ensures
            r.wf(),
            r.q_spec() == q,
            r.coeffs().len() == degree,
    {
        let mut vals: Vec<u128> = Vec::new();
        let mut i: usize = 0;
        while i < degree
            invariant
                i <= degree,
                vals@.len() == i,
                2 <= q <= modulus_bound(),
                forall|k: int| 0 <= k < i ==> vals@[k] < q,
            decreases degree - i,
        {
            let v = gen_below(rng, q);
            vals.push(v);
            i = i + 1;
        }
        let r = Self { vals, q };
        proof {
            assert(all_below(r.coeffs(), r.q_spec()));
        }
        r
    }

    pub fn get_degree(&self) -> (r: usize)
        ensures
            r == self.coeffs().len(),
    {
        self.vals.len()
    }

    pub fn get_q(&self) -> (r: u128)
        ensures
            r == self.q_spec(),
    {
        self.q
    }

    /// One coefficient, as a reduced residue.
    pub fn coeff_at(&self, i: usize) -> (r: u128)
        requires
            i < self.coeffs().len(),
        ensures
            r == self.coeffs()[i as int],
    {
        self.vals[i]
    }

    /// Sum in R_q; the shorter operand is first padded with zeros.
    pub fn add(&self, other: &Self) -> (r: Self)
        requires
            self.wf(),
            other.wf(),
            self.q_spec() == other.q_spec(),
        ensures
            r.wf(),
            r.q_spec() == self.q_spec(),
            r.coeffs() == padd(
                pad_seq(self.coeffs(), nat_max(self.coeffs().len(), other.coeffs().len())),
                pad_seq(other.coeffs(), nat_max(self.coeffs().len(), other.coeffs().len())),
                self.q_spec(),
            ),
    {
        let la = self.vals.len();
        let lb = other.vals.len();
        let l: usize = if la >= lb {
            la
        } else {
            lb
        };
        let ghost gl = nat_max(self.coeffs().len(), other.coeffs().len());
        let ghost target = padd(
            pad_seq(self.coeffs(), gl),
            pad_seq(other.coeffs(), gl),
            self.q_spec(),
        );
        let mut vals: Vec<u128> = Vec::new();
        let mut t: usize = 0;
        while t < l
            invariant
                t <= l,
                l == gl,
                la == self.coeffs().len(),
                lb == other.coeffs().len(),
                l == nat_max(la as nat, lb as nat),
                self.wf(),
                other.wf(),
                self.q_spec() == other.q_spec(),
                vals@.len() == t,
                target == padd(
                    pad_seq(self.coeffs(), gl),
                    pad_seq(other.coeffs(), gl),
                    self.q_spec(),
                ),
                forall|k: int| 0 <= k < t ==> vals@[k] as int == target[k],
            decreases l - t,
        {
            let av: u128 = if t < la {
                self.vals[t]
            } else {
                0
            };
            let bv: u128 = if t < lb {
                other.vals[t]
            } else {
                0
            };
            proof {
                if t < la {
                    assert(av as int == self.coeffs()[t as int]);
                }
                if t < lb {
                    assert(bv as int == other.coeffs()[t as int]);
                }
            }
            let s = add_mod(av, bv, self.q);
            vals.push(s);
            t = t + 1;
        }
        let r = Self { vals, q: self.q };
        proof {
            assert(r.coeffs() =~= target);
            assert forall|i: int| 0 <= i < r.coeffs().len() implies 0 <= #[trigger] r.coeffs()[i]
                < r.q_spec() by {
                lemma_mod_bound(
                    pad_seq(self.coeffs(), gl)[i] + pad_seq(other.coeffs(), gl)[i],
                    self.q_spec(),
                );
            }
        }
        r
    }

    /// Difference in R_q; the shorter operand is first padded with zeros.
    pub fn sub(&self, other: &Self) -> (r: Self)
        requires
            self.wf(),
            other.wf(),
            self.q_spec() == other.q_spec(),
        ensures
            r.wf(),
            r.q_spec() == self.q_spec(),
            r.coeffs() == psub(
                pad_seq(self.coeffs(), nat_max(self.coeffs().len(), other.coeffs().len())),
                pad_seq(other.coeffs(), nat_max(self.coeffs().len(), other.coeffs().len())),
                self.q_spec(),
            ),
    {
        let la = self.vals.len();
        let lb = other.vals.len();
        let l: usize = if la >= lb {
            la
        } else {
            lb
        };
        let ghost gl = nat_max(self.coeffs().len(), other.coeffs().len());
        let ghost target = psub(
            pad_seq(self.coeffs(), gl),
            pad_seq(other.coeffs(), gl),
            self.q_spec(),
        );
        let mut vals: Vec<u128> = Vec::new();
        let mut t: usize = 0;
        while t < l
            invariant
                t <= l,
                l == gl,
                la == self.coeffs().len(),
                lb == other.coeffs().len(),
                self.wf(),
                other.wf(),
                self.q_spec() == other.q_spec(),
                vals@.len() == t,
                target == psub(
                    pad_seq(self.coeffs(), gl),
                    pad_seq(other.coeffs(), gl),
                    self.q_spec(),
                ),
                forall|k: int| 0 <= k < t ==> vals@[k] as int == target[k],
            decreases l - t,
        {
            let av: u128 = if t < la {
                self.vals[t]
            } else {
                0
            };
            let bv: u128 = if t < lb {
                other.vals[t]
            } else {
                0
            };
            proof {
                if t < la {
                    assert(av as int == self.coeffs()[t as int]);
                }
                if t < lb {
                    assert(bv as int == other.coeffs()[t as int]);
                }
            }
            let s = sub_mod(av, bv, self.q);
            vals.push(s);
            t = t + 1;
        }
        let r = Self { vals, q: self.q };
        proof {
            assert(r.coeffs() =~= target);
            assert forall|i: int| 0 <= i < r.coeffs().len() implies 0 <= #[trigger] r.coeffs()[i]
                < r.q_spec() by {
                lemma_mod_bound(
                    pad_seq(self.coeffs(), gl)[i] - pad_seq(other.coeffs(), gl)[i],
                    self.q_spec(),
                );
            }
        }
        r
    }

    /// Negation in R_q.
    pub fn neg(&self) -> (r: Self)
        requires
            self.wf(),
        ensures
            r.wf(),
            r.q_spec() == self.q_spec(),
            r.coeffs() == pneg(self.coeffs(), self.q_spec()),
    {
        let mut vals: Vec<u128> = Vec::new();
        let mut t: usize = 0;
        let l = self.vals.len();
        while t < l
            invariant
                t <= l,
                l == self.coeffs().len(),
                self.wf(),
                vals@.len() == t,
                forall|k: int| 0 <= k < t ==> vals@[k] as int == pneg(
                    self.coeffs(),
                    self.q_spec(),
                )[k],
            decreases l - t,
        {
            proof {
                assert(self.vals@[t as int] as int == self.coeffs()[t as int]);
            }
            let s = sub_mod(0, self.vals[t], self.q);
            vals.push(s);
            t = t + 1;
        }
        let r = Self { vals, q: self.q };
        proof {
            assert(r.coeffs() =~= pneg(self.coeffs(), self.q_spec()));
            assert forall|i: int| 0 <= i < r.coeffs().len() implies 0 <= #[trigger] r.coeffs()[i]
                < r.q_spec() by {
                lemma_mod_bound(0 - self.coeffs()[i], self.q_spec());
            }
        }
        r
    }

    /// Every coefficient scaled by the integer `c`, in R_q.
    pub fn mul_scalar(&self, c: i128) -> (r: Self)
        requires
            self.wf(),
        ensures
            r.wf(),
            r.q_spec() == self.q_spec(),
            r.coeffs() == pscale(self.coeffs(), c as int, self.q_spec()),
    {
        let cres = lift_i128(c, self.q);
        let mut vals: Vec<u128> = Vec::new();
        let mut t: usize = 0;
        let l = self.vals.len();
        while t < l
            invariant
                t <= l,
                l == self.coeffs().len(),
                self.wf(),
                cres < self.q_spec(),
                cres as int == (c as int) % self.q_spec(),
                vals@.len() == t,
                forall|k: int| 0 <= k < t ==> vals@[k] as int == pscale(
                    self.coeffs(),
                    c as int,
                    self.q_spec(),
                )[k],
            decreases l - t,
        {
            proof {
                assert(self.vals@[t as int] as int == self.coeffs()[t as int]);
            }
            let s = mul_mod(cres, self.vals[t], self.q);
            proof {
                lemma_mul_mod_noop_left(c as int, self.coeffs()[t as int], self.q_spec());
            }
            vals.push(s);
            t = t + 1;
        }
        let r = Self { vals, q: self.q };
        proof {
            assert(r.coeffs() =~= pscale(self.coeffs(), c as int, self.q_spec()));
            assert forall|i: int| 0 <= i < r.coeffs().len() implies 0 <= #[trigger] r.coeffs()[i]
                < r.q_spec() by {
                lemma_mod_bound(c as int * self.coeffs()[i], self.q_spec());
            }
        }
        r
    }

    /// Every coefficient scaled by the reduced residue `c`, in R_q.
    pub fn scale_res(&self, c: u128) -> (r: Self)
        requires
            self.wf(),
            c < self.q_spec(),
        ensures
            r.wf(),
            r.q_spec() == self.q_spec(),
            r.coeffs() == pscale(self.coeffs(), c as int, self.q_spec()),
    {
        let mut vals: Vec<u128> = Vec::new();
        let mut t: usize = 0;
        let l = self.vals.len();
        while t < l
            invariant
                t <= l,
                l == self.coeffs().len(),
                self.wf(),
                c < self.q_spec(),
                vals@.len() == t,
                forall|k: int| 0 <= k < t ==> vals@[k] as int == pscale(
                    self.coeffs(),
                    c as int,
                    self.q_spec(),
                )[k],
            decreases l - t,
        {
            proof {
                assert(self.vals@[t as int] as int == self.coeffs()[t as int]);
            }
            let s = mul_mod(c, self.vals[t], self.q);
            vals.push(s);
            t = t + 1;
        }
        let r = Self { vals, q: self.q };
        proof {
            assert(r.coeffs() =~= pscale(self.coeffs(), c as int, self.q_spec()));
            assert forall|i: int| 0 <= i < r.coeffs().len() implies 0 <= #[trigger] r.coeffs()[i]
                < r.q_spec() by {
                lemma_mod_bound(c as int * self.coeffs()[i], self.q_spec());
            }
        }
        r
    }

    /// Product in R_q: the full schoolbook convolution, folded once by
    /// `X^{L+i} = -X^i` to length `L = max(|a|, |b|)`.
    pub fn mul(&self, other: &Self) -> (r: Self)
        requires
            self.wf(),
            other.wf(),
            self.q_spec() == other.q_spec(),
            1 <= self.coeffs().len(),
            1 <= other.coeffs().len(),
            self.coeffs().len() + other.coeffs().len() <= usize::MAX,
        ensures
            r.wf(),
            r.q_spec() == self.q_spec(),
            r.coeffs() == neg_mul(self.coeffs(), other.coeffs(), self.q_spec()),
    {
        let ghost a = self.coeffs();
        let ghost b = other.coeffs();
        let ghost q = self.q_spec();
        let la = self.vals.len();
        let lb = other.vals.len();
        let l: usize = if la >= lb {
            la
        } else {
            lb
        };
        let conv_len: usize = la + lb - 1;
        let mut buf: Vec<u128> = Vec::new();
        let mut z: usize = 0;
        while z < conv_len
            invariant
                z <= conv_len,
                buf@.len() == z,
                forall|k: int| 0 <= k < z ==> buf@[k] == 0u128,
            decreases conv_len - z,
        {
            buf.push(0);
            z = z + 1;
        }
        proof {
            assert forall|k: int| 0 <= k < conv_len implies buf@[k] as int == csum(a, b, k, 0)
                % q by {
                lemma_small_mod(0nat, q as nat);
            }
        }
        let mut i: usize = 0;
        while i < la
            invariant
                i <= la,
                la == a.len(),
                lb == b.len(),
                conv_len == la + lb - 1,
                self.wf(),
                other.wf(),
                a == self.coeffs(),
                b == other.coeffs(),
                q == self.q_spec(),
                q == other.q_spec(),
                buf@.len() == conv_len,
                forall|k: int| 0 <= k < conv_len ==> buf@[k] < self.q,
                forall|k: int| 0 <= k < conv_len ==> buf@[k] as int == csum(a, b, k, i as nat)
                    % q,
            decreases la - i,
        {
            let av = self.vals[i];
            proof {
                assert(av as int == a[i as int]);
            }
            let mut j: usize = 0;
            while j < lb
                invariant
                    j <= lb,
                    i < la,
                    la == a.len(),
                    lb == b.len(),
                    conv_len == la + lb - 1,
                    self.wf(),
                    other.wf(),
                    a == self.coeffs(),
                    b == other.coeffs(),
                    q == self.q_spec(),
                    q == other.q_spec(),
                    av as int == a[i as int],
                    buf@.len() == conv_len,
                    forall|k: int| 0 <= k < conv_len ==> buf@[k] < self.q,
                    forall|k: int|
                        0 <= k < conv_len ==> buf@[k] as int == (csum(a, b, k, i as nat) + (
                        if i <= k < i + j {
                            a[i as int] * b[k - i]
                        } else {
                            0int
                        })) % q,
                decreases lb - j,
            {
                let bv = other.vals[j];
                proof {
                    assert(bv as int == b[j as int]);
                }
                let idx: usize = i + j;
                let prod = mul_mod(av, bv, self.q);
                let old_val = buf[idx];
                let newv = add_mod(old_val, prod, self.q);
                proof {
                    // old_val == csum(a,b,idx,i) % q; the row term for idx is a[i]*b[j]
                    let term = a[i as int] * b[j as int];
                    lemma_add_mod_noop(csum(a, b, idx as int, i as nat), term, q);
                    lemma_small_mod(((a[i as int] * b[j as int]) % q) as nat, q as nat);
                    lemma_add_mod_noop_right(
                        csum(a, b, idx as int, i as nat) % q,
                        a[i as int] * b[j as int],
                        q,
                    );
                    lemma_add_mod_noop_right(
                        csum(a, b, idx as int, i as nat),
                        a[i as int] * b[j as int],
                        q,
                    );
                }
                buf.set(idx, newv);
                j = j + 1;
            }
            proof {
                assert forall|k: int| 0 <= k < conv_len implies buf@[k] as int == csum(
                    a,
                    b,
                    k,
                    (i + 1) as nat,
                ) % q by {
                    assert(csum(a, b, k, (i + 1) as nat) == csum(a, b, k, i as nat) + (
                    if 0 <= k - i < lb {
                        a[i as int] * b[k - i]
                    } else {
                        0int
                    }));
                }
            }
            i = i + 1;
        }
        // Fold: out[t] = buf[t] - buf[t + l]  (the latter taken as 0 past the end).
        let ghost target = neg_mul(a, b, q);
        let mut vals: Vec<u128> = Vec::new();
        let mut t: usize = 0;
        while t < l
            invariant
                t <= l,
                l == nat_max(a.len(), b.len()),
                la == a.len(),
                lb == b.len(),
                1 <= la,
                1 <= lb,
                conv_len == la + lb - 1,
                l <= conv_len < usize::MAX,
                self.wf(),
                a == self.coeffs(),
                b == other.coeffs(),
                q == self.q_spec(),
                buf@.len() == conv_len,
                forall|k: int| 0 <= k < conv_len ==> buf@[k] < self.q,
                forall|k: int| 0 <= k < conv_len ==> buf@[k] as int == csum(a, b, k, la as nat)
                    % q,
                target == neg_mul(a, b, q),
                vals@.len() == t,
                forall|k: int| 0 <= k < t ==> vals@[k] as int == target[k],
                forall|k: int| 0 <= k < t ==> vals@[k] < self.q,
            decreases l - t,
        {
            let lo = buf[t];
            let hi: u128 = if t < conv_len - l {
                buf[t + l]
            } else {
                0
            };
            let outv = sub_mod(lo, hi, self.q);
            proof {
                let kt = t as int;
                if t + l < conv_len {
                    lemma_sub_mod_noop(csum(a, b, kt, la as nat), csum(a, b, kt + l, la as nat), q);
                } else {
                    lemma_conv_at_zero(a, b, kt + l, la as nat);
                    lemma_sub_mod_noop(csum(a, b, kt, la as nat), 0, q);
                    lemma_small_mod(0nat, q as nat);
                }
                assert(outv as int == (conv_at(a, b, kt) - conv_at(a, b, kt + l)) % q);
            }
            vals.push(outv);
            t = t + 1;
        }
        let r = Self { vals, q: self.q };
        proof {
            assert(r.coeffs() =~= target);
        }
        r
    }

    /// Coefficient-wise comparison (the moduli are not compared).
    pub fn equals(&self, other: &Self) -> (r: bool)
        ensures
            r <==> self.coeffs() == other.coeffs(),
    {
        let la = self.vals.len();
        let lb = other.vals.len();
        if la != lb {
            proof {
                assert(self.coeffs().len() != other.coeffs().len());
            }
            return false;
        }
        let mut t: usize = 0;
        while t < la
            invariant
                t <= la,
                la == self.coeffs().len(),
                la == other.coeffs().len(),
                forall|k: int| 0 <= k < t ==> self.coeffs()[k] == other.coeffs()[k],
            decreases la - t,
        {
            proof {
                assert(self.vals@[t as int] as int == self.coeffs()[t as int]);
                assert(other.vals@[t as int] as int == other.coeffs()[t as int]);
            }
            if self.vals[t] != other.vals[t] {
                return false;
            }
            t = t + 1;
        }
        proof {
            assert(self.coeffs() =~= other.coeffs());
        }
        true
    }

    /// The element extended to length `l` with zero coefficients.
    pub fn pad_to(&self, l: usize) -> (r: Self)
        requires
            self.wf(),
            l >= self.coeffs().len(),
        ensures
            r.wf(),
            r.q_spec() == self.q_spec(),
            r.coeffs() == pad_seq(self.coeffs(), l as nat),
    {
        let mut vals: Vec<u128> = Vec::new();
        let len = self.vals.len();
        let mut t: usize = 0;
        while t < l
            invariant
                t <= l,
                len == self.coeffs().len(),
                len <= l,
                self.wf(),
                vals@.len() == t,
                forall|k: int| 0 <= k < t ==> vals@[k] as int == pad_seq(self.coeffs(), l as nat)[k],
                forall|k: int| 0 <= k < t ==> vals@[k] < self.q,
            decreases l - t,
        {
            let v: u128 = if t < len {
                proof {
                    assert(self.vals@[t as int] as int == self.coeffs()[t as int]);
                }
                self.vals[t]
            } else {
                0
            };
            vals.push(v);
            t = t + 1;
        }
        let r = Self { vals, q: self.q };
        proof {
            assert(r.coeffs() =~= pad_seq(self.coeffs(), l as nat));
        }
        r
    }

    /// The coefficients `from .. to`, as an element of the same ring.
    pub fn subrange_et(&self, from: usize, to: usize) -> (r: Self)
        requires
            self.wf(),
            from <= to <= self.coeffs().len(),
        ensures
            r.wf(),
            r.q_spec() == self.q_spec(),
            r.coeffs() == self.coeffs().subrange(from as int, to as int),
    {
        let mut vals: Vec<u128> = Vec::new();
        let mut t: usize = from;
        while t < to
            invariant
                from <= t <= to,
                to <= self.coeffs().len(),
                self.wf(),
                vals@.len() == t - from,
                forall|k: int| 0 <= k < t - from ==> vals@[k] as int == self.coeffs()[from + k],
                forall|k: int| 0 <= k < t - from ==> vals@[k] < self.q,
            decreases to - t,
        {
            proof {
                assert(self.vals@[t as int] as int == self.coeffs()[t as int]);
            }
            vals.push(self.vals[t]);
            t = t + 1;
        }
        let r = Self { vals, q: self.q };
        proof {
            assert(r.coeffs() =~= self.coeffs().subrange(from as int, to as int));
        }
        r
    }

    /// The infinity norm of the balanced representative.
    pub fn norm(&self) -> (r: u128)
        requires
            self.wf(),
        ensures
            r == norm_spec(self.coeffs(), self.q_spec()),
    {
        let mut best: u128 = 0;
        let mut t: usize = 0;
        let l = self.vals.len();
        while t < l
            invariant
                t <= l,
                l == self.coeffs().len(),
                self.wf(),
                best as int == norm_prefix(self.coeffs(), self.q_spec(), t as nat),
            decreases l - t,
        {
            proof {
                assert(self.vals@[t as int] as int == self.coeffs()[t as int]);
            }
            let cur = bal_abs(self.vals[t], self.q);
            if cur > best {
                best = cur;
            }
            t = t + 1;
        }
        best
    }

    /// Each coefficient replaced by its balanced representative mod `p`
    /// (the modulus of the element itself is kept).
    pub fn modulo_p(&self, p: u128) -> (r: Self)
        requires
            self.wf(),
            2 <= p <= self.q_spec(),
        ensures
            r.wf(),
            r.q_spec() == self.q_spec(),
            r.coeffs().len() == self.coeffs().len(),
            forall|i: int| 0 <= i < r.coeffs().len() ==> r.coeffs()[i] == bal(
                #[trigger] self.coeffs()[i],
                self.q_spec(),
            ) % (p as int),
    {
        let mut vals: Vec<u128> = Vec::new();
        let mut t: usize = 0;
        let l = self.vals.len();
        while t < l
            invariant
                t <= l,
                l == self.coeffs().len(),
                self.wf(),
                2 <= p <= self.q_spec(),
                vals@.len() == t,
                forall|k: int| 0 <= k < t ==> vals@[k] as int == bal(
                    #[trigger] self.coeffs()[k],
                    self.q_spec(),
                ) % (p as int),
                forall|k: int| 0 <= k < t ==> vals@[k] < p,
            decreases l - t,
        {
            proof {
                assert(self.vals@[t as int] as int == self.coeffs()[t as int]);
            }
            let s = bal_mod(self.vals[t], self.q, p);
            vals.push(s);
            t = t + 1;
        }
        let r = Self { vals, q: self.q };
        r
    }
}

} // verus!
