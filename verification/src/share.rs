//! Online-phase share arithmetic: additive shares of a field element and
//! the Beaver multiplication that consumes one preprocessed triple per
//! product.  The triple is handed in as plain values, as the offline phase
//! emits it.

use vstd::prelude::*;
use vstd::arithmetic::div_mod::{
    lemma_small_mod, lemma_mod_bound, lemma_add_mod_noop, lemma_add_mod_noop_right,
    lemma_sub_mod_noop, lemma_mul_mod_noop_general,
};
use crate::arith::{fadd, modulus_bound, add_mod, sub_mod, mul_mod};

verus! {

/// The reduced running sum of the first `i` shares: the value a sharing
/// opens to.
pub open spec fn opened(s: Seq<int>, p: int, i: nat) -> int
    decreases i,
{
    if i == 0 {
        0int
    } else {
        fadd(opened(s, p, (i - 1) as nat), s[i - 1], p)
    }
}

/// Every share is a reduced residue.
pub open spec fn shares_below(s: Seq<int>, p: int) -> bool {
    forall|i: int| 0 <= i < s.len() ==> 0 <= #[trigger] s[i] < p
}

/// Opens an additive sharing: the sum of all shares mod `p`.
pub fn open_shares(s: &Vec<u128>, p: u128) -> (r: u128)
    requires
        2 <= p <= modulus_bound(),
        shares_below(s@.map(|_i: int, v: u128| v as int), p as int),
    ensures
        r as int == opened(s@.map(|_i: int, v: u128| v as int), p as int, s@.len()),
        r < p,
{
    let ghost gs = s@.map(|_i: int, v: u128| v as int);
    let len = s.len();
    let mut acc: u128 = 0;
    let mut i: usize = 0;
    while i < len
        invariant
            i <= len,
            len == gs.len(),
            2 <= p <= modulus_bound(),
            gs == s@.map(|_i: int, v: u128| v as int),
            shares_below(gs, p as int),
            acc < p,
            acc as int == opened(gs, p as int, i as nat),
        decreases len - i,
    {
        proof {
            assert(s@[i as int] as int == gs[i as int]);
        }
        acc = add_mod(acc, s[i], p);
        i = i + 1;
    }
    acc
}

/// Flattening helper: nested reductions of two added products collapse.
proof fn lemma_strip2(c: int, t1: int, t2: int, p: int)
    requires
        2 <= p,
    ensures
        (c + ((t1 % p) + (t2 % p)) % p) % p == (c + t1 + t2) % p,
{
    lemma_add_mod_noop(t1, t2, p);
    lemma_add_mod_noop_right(c, (t1 % p) + (t2 % p), p);
    lemma_add_mod_noop_right(c, t1 + t2, p);
}

/// Flattening helper: one more reduced summand collapses as well.
proof fn lemma_strip3(c: int, t1: int, t2: int, t3: int, p: int)
    requires
        2 <= p,
    ensures
        ((c + ((t1 % p) + (t2 % p)) % p) % p + t3 % p) % p == (c + t1 + t2 + t3) % p,
{
    lemma_strip2(c, t1, t2, p);
    lemma_add_mod_noop((c + t1 + t2), t3, p);
    vstd::arithmetic::div_mod::lemma_mod_twice(c + t1 + t2, p);
    vstd::arithmetic::div_mod::lemma_mod_twice(t3, p);
    lemma_add_mod_noop((c + ((t1 % p) + (t2 % p)) % p) % p, t3 % p, p);
    vstd::arithmetic::div_mod::lemma_mod_twice((c + ((t1 % p) + (t2 % p)) % p), p);
    vstd::arithmetic::div_mod::lemma_mod_twice(t3 % p, p);
    lemma_add_mod_noop((c + ((t1 % p) + (t2 % p)) % p), t3, p);
}

/// Regrouping helper: opened prefixes extended by one share distribute
/// through the Beaver combination.
proof fn lemma_combo(
    oc: int,
    ob: int,
    oa: int,
    cc: int,
    bb: int,
    aa: int,
    eps: int,
    del: int,
    p: int,
)
    requires
        2 <= p,
    ensures
        ((oc + cc) % p + eps * ((ob + bb) % p) + del * ((oa + aa) % p) + eps * del) % p == (oc
            + eps * ob + del * oa + eps * del + cc + eps * bb + del * aa) % p,
{
    let s0 = (oc + cc) % p + eps * ((ob + bb) % p) + del * ((oa + aa) % p) + eps * del;
    // replace del * ((oa+aa) % p) by del * (oa+aa)
    lemma_add_mod_noop_right(
        (oc + cc) % p + eps * ((ob + bb) % p) + eps * del,
        del * ((oa + aa) % p),
        p,
    );
    vstd::arithmetic::div_mod::lemma_mod_twice(del * ((oa + aa) % p), p);
    lemma_mul_mod_noop_general(del, oa + aa, p);
    lemma_add_mod_noop_right(
        (oc + cc) % p + eps * ((ob + bb) % p) + eps * del,
        del * (oa + aa),
        p,
    );
    assert(s0 % p == ((oc + cc) % p + eps * ((ob + bb) % p) + eps * del + del * (oa + aa))
        % p);
    // replace eps * ((ob+bb) % p) by eps * (ob+bb)
    lemma_add_mod_noop_right(
        (oc + cc) % p + eps * del + del * (oa + aa),
        eps * ((ob + bb) % p),
        p,
    );
    vstd::arithmetic::div_mod::lemma_mod_twice(eps * ((ob + bb) % p), p);
    lemma_mul_mod_noop_general(eps, ob + bb, p);
    lemma_add_mod_noop_right((oc + cc) % p + eps * del + del * (oa + aa), eps * (ob + bb), p);
    assert(s0 % p == ((oc + cc) % p + eps * (ob + bb) + del * (oa + aa) + eps * del) % p);
    // replace (oc+cc) % p by oc + cc
    lemma_add_mod_noop_right(
        eps * (ob + bb) + del * (oa + aa) + eps * del,
        (oc + cc) % p,
        p,
    );
    vstd::arithmetic::div_mod::lemma_mod_twice(oc + cc, p);
    lemma_add_mod_noop_right(eps * (ob + bb) + del * (oa + aa) + eps * del, oc + cc, p);
    assert(s0 % p == (oc + cc + eps * (ob + bb) + del * (oa + aa) + eps * del) % p);
    // distribute the public factors
    vstd::arithmetic::mul::lemma_mul_is_distributive_add(eps, ob, bb);
    vstd::arithmetic::mul::lemma_mul_is_distributive_add(del, oa, aa);
}

/// The sums of two sharings combined pointwise with the Beaver correction
/// terms open to the combined corrections.
proof fn lemma_beaver_sum(
    z: Seq<int>,
    c: Seq<int>,
    a: Seq<int>,
    b: Seq<int>,
    eps: int,
    del: int,
    p: int,
    i: nat,
)
    requires
        2 <= p,
        1 <= i <= z.len(),
        z.len() == c.len(),
        z.len() == a.len(),
        z.len() == b.len(),
        0 <= eps < p,
        0 <= del < p,
        z[0] == (c[0] + ((eps * b[0]) % p + (del * a[0]) % p) % p + (eps * del) % p) % p,
        forall|k: int|
            1 <= k < z.len() ==> #[trigger] z[k] == (c[k] + ((eps * b[k]) % p + (del * a[k]) % p)
                % p) % p,
    ensures
        opened(z, p, i) == (opened(c, p, i) + eps * opened(b, p, i) + del * opened(a, p, i) + eps
            * del) % p,
    decreases i,
{
    if i == 1 {
        // one share: unfold both running sums once
        assert(opened(z, p, 0) == 0);
        assert(opened(c, p, 0) == 0);
        assert(opened(a, p, 0) == 0);
        assert(opened(b, p, 0) == 0);
        assert(opened(z, p, 1) == (0 + z[0]) % p);
        assert(opened(c, p, 1) == (0 + c[0]) % p);
        assert(opened(a, p, 1) == (0 + a[0]) % p);
        assert(opened(b, p, 1) == (0 + b[0]) % p);
        lemma_mod_bound(c[0] + ((eps * b[0]) % p + (del * a[0]) % p) % p + (eps * del) % p, p);
        lemma_strip3(c[0], eps * b[0], del * a[0], eps * del, p);
        vstd::arithmetic::div_mod::lemma_mod_twice(
            c[0] + ((eps * b[0]) % p + (del * a[0]) % p) % p,
            p,
        );
        lemma_add_mod_noop(
            (c[0] + ((eps * b[0]) % p + (del * a[0]) % p) % p) % p,
            (eps * del) % p,
            p,
        );
        vstd::arithmetic::div_mod::lemma_mod_twice((eps * del), p);
        assert(z[0] == (c[0] + eps * b[0] + del * a[0] + eps * del) % p) by {
            lemma_strip3(c[0], eps * b[0], del * a[0], eps * del, p);
            lemma_add_mod_noop(
                (c[0] + ((eps * b[0]) % p + (del * a[0]) % p) % p),
                (eps * del) % p,
                p,
            );
            vstd::arithmetic::div_mod::lemma_mod_twice(c[0] + ((eps * b[0]) % p + (del * a[0])
                % p) % p, p);
            vstd::arithmetic::div_mod::lemma_mod_twice(eps * del, p);
            lemma_add_mod_noop(
                (c[0] + ((eps * b[0]) % p + (del * a[0]) % p) % p),
                eps * del,
                p,
            );
        };
        // fold the opened prefixes back in via the regrouping helper
        lemma_mod_bound(c[0] + ((eps * b[0]) % p + (del * a[0]) % p) % p + (eps * del) % p, p);
        lemma_small_mod((z[0]) as nat, p as nat);
        lemma_add_mod_noop_right(0, z[0], p);
        lemma_combo(0, 0, 0, c[0], b[0], a[0], eps, del, p);
        assert((opened(c, p, 1) + eps * opened(b, p, 1) + del * opened(a, p, 1) + eps * del) % p
            == (0 + eps * 0 + del * 0 + eps * del + c[0] + eps * b[0] + del * a[0]) % p);
        assert(0 + eps * 0 + del * 0 + eps * del + c[0] + eps * b[0] + del * a[0] == c[0] + eps
            * b[0] + del * a[0] + eps * del) by (nonlinear_arith);
        assert(opened(z, p, 1) == z[0]);
        } else {
        lemma_beaver_sum(z, c, a, b, eps, del, p, (i - 1) as nat);
        let oz = opened(z, p, (i - 1) as nat);
        let oc = opened(c, p, (i - 1) as nat);
        let oa = opened(a, p, (i - 1) as nat);
        let ob = opened(b, p, (i - 1) as nat);
        assert(opened(z, p, i) == fadd(oz, z[i - 1], p));
        assert(opened(c, p, i) == fadd(oc, c[i - 1], p));
        assert(opened(a, p, i) == fadd(oa, a[i - 1], p));
        assert(opened(b, p, i) == fadd(ob, b[i - 1], p));
        assert(opened(z, p, i) == (oz + z[i - 1]) % p);
        assert(z[i - 1] == (c[i - 1] + ((eps * b[i - 1]) % p + (del * a[i - 1]) % p) % p) % p);
        // strip the nested reductions of the new share
        lemma_strip2(c[i - 1], eps * b[i - 1], del * a[i - 1], p);
        assert(z[i - 1] == (c[i - 1] + eps * b[i - 1] + del * a[i - 1]) % p);
        // join the two reduced summands
        lemma_add_mod_noop(
            oc + eps * ob + del * oa + eps * del,
            c[i - 1] + eps * b[i - 1] + del * a[i - 1],
            p,
        );
        vstd::arithmetic::div_mod::lemma_mod_twice(oc + eps * ob + del * oa + eps * del, p);
        vstd::arithmetic::div_mod::lemma_mod_twice(c[i - 1] + eps * b[i - 1] + del * a[i - 1], p);
        assert(opened(z, p, i) == (oc + eps * ob + del * oa + eps * del + c[i - 1] + eps * b[i
            - 1] + del * a[i - 1]) % p);
        // regroup into the opened prefixes of length i
        lemma_combo(oc, ob, oa, c[i - 1], b[i - 1], a[i - 1], eps, del, p);
        assert(opened(c, p, i) == (oc + c[i - 1]) % p);
        assert(opened(a, p, i) == (oa + a[i - 1]) % p);
        assert(opened(b, p, i) == (ob + b[i - 1]) % p);
    }
}

/// Beaver multiplication on additive sharings: with a preprocessed triple
/// `(a, b, c)` whose opened values satisfy `c = a * b`, the parties open
/// the masked differences and combine shares so that the result opens to
/// the product of the two inputs.
pub fn beaver_mul(
    x: &Vec<u128>,
    y: &Vec<u128>,
    a: &Vec<u128>,
    b: &Vec<u128>,
    c: &Vec<u128>,
    p: u128,
) -> (r: Vec<u128>)
    requires
        2 <= p <= modulus_bound(),
        1 <= x@.len(),
        x@.len() == y@.len(),
        x@.len() == a@.len(),
        x@.len() == b@.len(),
        x@.len() == c@.len(),
        shares_below(x@.map(|_i: int, v: u128| v as int), p as int),
        shares_below(y@.map(|_i: int, v: u128| v as int), p as int),
        shares_below(a@.map(|_i: int, v: u128| v as int), p as int),
        shares_below(b@.map(|_i: int, v: u128| v as int), p as int),
        shares_below(c@.map(|_i: int, v: u128| v as int), p as int),
        opened(c@.map(|_i: int, v: u128| v as int), p as int, c@.len()) == (opened(
            a@.map(|_i: int, v: u128| v as int),
            p as int,
            a@.len(),
        ) * opened(b@.map(|_i: int, v: u128| v as int), p as int, b@.len())) % (p as int),
    ensures
        r@.len() == x@.len(),
        shares_below(r@.map(|_i: int, v: u128| v as int), p as int),
        opened(r@.map(|_i: int, v: u128| v as int), p as int, r@.len()) == (opened(
            x@.map(|_i: int, v: u128| v as int),
            p as int,
            x@.len(),
        ) * opened(y@.map(|_i: int, v: u128| v as int), p as int, y@.len())) % (p as int),
{
    let ghost gp = p as int;
    let ghost gx = x@.map(|_i: int, v: u128| v as int);
    let ghost gy = y@.map(|_i: int, v: u128| v as int);
    let ghost ga = a@.map(|_i: int, v: u128| v as int);
    let ghost gb = b@.map(|_i: int, v: u128| v as int);
    let ghost gc = c@.map(|_i: int, v: u128| v as int);
    let len = x.len();
    // the masked differences are opened publicly
    let x_open = open_shares(x, p);
    let a_open = open_shares(a, p);
    let eps = sub_mod(x_open, a_open, p);
    let y_open = open_shares(y, p);
    let b_open = open_shares(b, p);
    let del = sub_mod(y_open, b_open, p);
    let mut z: Vec<u128> = Vec::new();
    let mut i: usize = 0;
    while i < len
        invariant
            i <= len,
            len == gx.len(),
            2 <= p <= modulus_bound(),
            gp == p as int,
            gx == x@.map(|_i: int, v: u128| v as int),
            gy == y@.map(|_i: int, v: u128| v as int),
            ga == a@.map(|_i: int, v: u128| v as int),
            gb == b@.map(|_i: int, v: u128| v as int),
            gc == c@.map(|_i: int, v: u128| v as int),
            ga.len() == len,
            gb.len() == len,
            gc.len() == len,
            shares_below(ga, gp),
            shares_below(gb, gp),
            shares_below(gc, gp),
            eps < p,
            del < p,
            z@.len() == i,
            forall|k: int| 0 <= k < i ==> z@[k] < p,
            i >= 1 ==> z@[0] as int == (gc[0] + ((eps as int * gb[0]) % gp + (del as int * ga[0])
                % gp) % gp + (eps as int * del as int) % gp) % gp,
            forall|k: int|
                1 <= k < i ==> #[trigger] z@[k] as int == (gc[k] + ((eps as int * gb[k]) % gp + (
                del as int * ga[k]) % gp) % gp) % gp,
        decreases len - i,
    {
        proof {
            assert(a@[i as int] as int == ga[i as int]);
            assert(b@[i as int] as int == gb[i as int]);
            assert(c@[i as int] as int == gc[i as int]);
        }
        let eb = mul_mod(eps, b[i], p);
        let da = mul_mod(del, a[i], p);
        let corr = add_mod(eb, da, p);
        let mut zi = add_mod(c[i], corr, p);
        if i == 0 {
            let ed = mul_mod(eps, del, p);
            zi = add_mod(zi, ed, p);
            proof {
                let whole = gc[0] + ((eps as int * gb[0]) % gp + (del as int * ga[0]) % gp)
                    % gp;
                lemma_add_mod_noop(whole, (eps as int * del as int) % gp, gp);
                vstd::arithmetic::div_mod::lemma_mod_twice(whole, gp);
                vstd::arithmetic::div_mod::lemma_mod_twice(eps as int * del as int, gp);
            }
        }
        z.push(zi);
        i = i + 1;
    }
    proof {
        let gz = z@.map(|_i: int, v: u128| v as int);
        assert(gz.len() == len);
        assert forall|k: int| 0 <= k < len implies 0 <= #[trigger] gz[k] < gp by {
            assert(z@[k] as int == gz[k]);
        }
        assert(gz[0] == (gc[0] + ((eps as int * gb[0]) % gp + (del as int * ga[0]) % gp) % gp + (
        eps as int * del as int) % gp) % gp);
        assert forall|k: int|
            1 <= k < len implies #[trigger] gz[k] == (gc[k] + ((eps as int * gb[k]) % gp + (
        del as int * ga[k]) % gp) % gp) % gp by {
            assert(z@[k] as int == gz[k]);
        }
        lemma_beaver_sum(gz, gc, ga, gb, eps as int, del as int, gp, len as nat);
        // the triple's relation turns the corrected sum into the product
        let ox = opened(gx, gp, len as nat);
        let oy = opened(gy, gp, len as nat);
        let oa = opened(ga, gp, len as nat);
        let ob = opened(gb, gp, len as nat);
        let oc = opened(gc, gp, len as nat);
        assert(eps as int == (ox - oa) % gp);
        assert(del as int == (oy - ob) % gp);
        lemma_opened_bound(gx, gp, len as nat);
        lemma_opened_bound(gy, gp, len as nat);
        lemma_opened_bound(ga, gp, len as nat);
        lemma_opened_bound(gb, gp, len as nat);
        lemma_opened_bound(gc, gp, len as nat);
        lemma_beaver_algebra(ox, oy, oa, ob, oc, eps as int, del as int, gp);
    }
    z
}

/// The opened value of any sharing prefix is a reduced residue.
proof fn lemma_opened_bound(s: Seq<int>, p: int, i: nat)
    requires
        2 <= p,
    ensures
        0 <= opened(s, p, i) < p,
    decreases i,
{
    if i == 0 {
    } else {
        lemma_opened_bound(s, p, (i - 1) as nat);
        lemma_mod_bound(opened(s, p, (i - 1) as nat) + s[i - 1], p);
    }
}

/// The Beaver identity over reduced residues:
/// `c + eps*b + del*a + eps*del = x*y (mod p)` when `c = a*b`,
/// `eps = x - a` and `del = y - b`.
proof fn lemma_beaver_algebra(
    ox: int,
    oy: int,
    oa: int,
    ob: int,
    oc: int,
    eps: int,
    del: int,
    p: int,
)
    requires
        2 <= p,
        0 <= ox < p,
        0 <= oy < p,
        0 <= oa < p,
        0 <= ob < p,
        0 <= oc < p,
        eps == (ox - oa) % p,
        del == (oy - ob) % p,
        oc == (oa * ob) % p,
    ensures
        (oc + eps * ob + del * oa + eps * del) % p == (ox * oy) % p,
{
    // work with the unreduced differences and push every reduction outwards
    let e0 = ox - oa;
    let d0 = oy - ob;
    lemma_mul_mod_noop_general(e0, ob, p);
    lemma_mul_mod_noop_general(d0, oa, p);
    lemma_mul_mod_noop_general(e0, d0, p);
    lemma_mul_mod_noop_general(eps, del, p);
    assert((eps * ob) % p == (e0 * ob) % p);
    assert((del * oa) % p == (d0 * oa) % p);
    assert((eps * del) % p == (e0 * d0) % p) by {
        lemma_mul_mod_noop_general(e0, d0, p);
        vstd::arithmetic::div_mod::lemma_mod_twice(e0, p);
        vstd::arithmetic::div_mod::lemma_mod_twice(d0, p);
    };
    // fold all four summands under one reduction
    lemma_add_mod_noop_right(oc + eps * ob + del * oa, eps * del, p);
    lemma_add_mod_noop_right(oc + eps * ob + del * oa, e0 * d0, p);
    lemma_add_mod_noop(oc + eps * ob, del * oa, p);
    vstd::arithmetic::div_mod::lemma_mod_twice(del * oa, p);
    assert((oc + eps * ob + del * oa) % p == (oc + eps * ob + d0 * oa) % p) by {
        lemma_add_mod_noop(oc + eps * ob, del * oa, p);
        vstd::arithmetic::div_mod::lemma_mod_twice(oc + eps * ob, p);
        lemma_add_mod_noop(oc + eps * ob, d0 * oa, p);
        vstd::arithmetic::div_mod::lemma_mod_twice(d0 * oa, p);
    };
    assert((oc + eps * ob + d0 * oa) % p == (oc + e0 * ob + d0 * oa) % p) by {
        lemma_add_mod_noop(oc, eps * ob, p);
        vstd::arithmetic::div_mod::lemma_mod_twice(eps * ob, p);
        lemma_add_mod_noop(oc, e0 * ob, p);
        vstd::arithmetic::div_mod::lemma_mod_twice(e0 * ob, p);
        vstd::arithmetic::div_mod::lemma_mod_twice(oc, p);
        lemma_add_mod_noop((oc + e0 * ob) % p, d0 * oa, p);
        lemma_add_mod_noop((oc + eps * ob) % p, d0 * oa, p);
        vstd::arithmetic::div_mod::lemma_mod_twice(oc + e0 * ob, p);
        vstd::arithmetic::div_mod::lemma_mod_twice(oc + eps * ob, p);
        lemma_add_mod_noop(oc + e0 * ob, d0 * oa, p);
        lemma_add_mod_noop(oc + eps * ob, d0 * oa, p);
        vstd::arithmetic::div_mod::lemma_mod_twice(d0 * oa, p);
    };
    assert((oc + eps * ob + del * oa + eps * del) % p == (oc + e0 * ob + d0 * oa + e0 * d0)
        % p) by {
        lemma_add_mod_noop(oc + eps * ob + del * oa, eps * del, p);
        lemma_add_mod_noop(oc + e0 * ob + d0 * oa, e0 * d0, p);
        vstd::arithmetic::div_mod::lemma_mod_twice(oc + eps * ob + del * oa, p);
        vstd::arithmetic::div_mod::lemma_mod_twice(oc + e0 * ob + d0 * oa, p);
        vstd::arithmetic::div_mod::lemma_mod_twice(eps * del, p);
        vstd::arithmetic::div_mod::lemma_mod_twice(e0 * d0, p);
    };
    // replace the triple's share and close with the integer identity
    lemma_add_mod_noop(oc, e0 * ob + d0 * oa + e0 * d0, p);
    vstd::arithmetic::div_mod::lemma_mod_twice(oc, p);
    lemma_add_mod_noop(oa * ob, e0 * ob + d0 * oa + e0 * d0, p);
    vstd::arithmetic::div_mod::lemma_mod_twice(oa * ob, p);
    assert((oc + e0 * ob + d0 * oa + e0 * d0) % p == (oa * ob + e0 * ob + d0 * oa + e0 * d0)
        % p);
    assert(oa * ob + e0 * ob + d0 * oa + e0 * d0 == ox * oy) by (nonlinear_arith)
        requires
            e0 == ox - oa,
            d0 == oy - ob,
    ;
}


/// The integer values of a share vector.
pub open spec fn share_ints(v: Seq<u128>) -> Seq<int> {
    v.map(|_i: int, x: u128| x as int)
}

/// Batch Beaver multiplication: one preprocessed triple is consumed per
/// product, and every result opens to the product of its inputs.
pub fn batch_beaver_mul(
    xs: &Vec<Vec<u128>>,
    ys: &Vec<Vec<u128>>,
    a_list: &Vec<Vec<u128>>,
    b_list: &Vec<Vec<u128>>,
    c_list: &Vec<Vec<u128>>,
    p: u128,
) -> (r: Vec<Vec<u128>>)
    requires
        2 <= p <= modulus_bound(),
        xs@.len() == ys@.len(),
        xs@.len() == a_list@.len(),
        xs@.len() == b_list@.len(),
        xs@.len() == c_list@.len(),
        forall|i: int|
            0 <= i < xs@.len() ==> {
                &&& 1 <= (#[trigger] xs@[i])@.len()
                &&& xs@[i]@.len() == ys@[i]@.len()
                &&& xs@[i]@.len() == a_list@[i]@.len()
                &&& xs@[i]@.len() == b_list@[i]@.len()
                &&& xs@[i]@.len() == c_list@[i]@.len()
                &&& shares_below(share_ints(xs@[i]@), p as int)
                &&& shares_below(share_ints(ys@[i]@), p as int)
                &&& shares_below(share_ints(a_list@[i]@), p as int)
                &&& shares_below(share_ints(b_list@[i]@), p as int)
                &&& shares_below(share_ints(c_list@[i]@), p as int)
                &&& opened(share_ints(c_list@[i]@), p as int, c_list@[i]@.len()) == (opened(
                    share_ints(a_list@[i]@),
                    p as int,
                    a_list@[i]@.len(),
                ) * opened(share_ints(b_list@[i]@), p as int, b_list@[i]@.len())) % (p as int)
            },
    ensures
        r@.len() == xs@.len(),
        forall|i: int|
            0 <= i < r@.len() ==> {
                &&& (#[trigger] r@[i])@.len() == xs@[i]@.len()
                &&& shares_below(share_ints(r@[i]@), p as int)
                &&& opened(share_ints(r@[i]@), p as int, r@[i]@.len()) == (opened(
                    share_ints(xs@[i]@),
                    p as int,
                    xs@[i]@.len(),
                ) * opened(share_ints(ys@[i]@), p as int, ys@[i]@.len())) % (p as int)
            },
{
    let len = xs.len();
    let mut out: Vec<Vec<u128>> = Vec::new();
    let mut i: usize = 0;
    while i < len
        invariant
            i <= len,
            len == xs@.len(),
            2 <= p <= modulus_bound(),
            xs@.len() == ys@.len(),
            xs@.len() == a_list@.len(),
            xs@.len() == b_list@.len(),
            xs@.len() == c_list@.len(),
            forall|k: int|
                0 <= k < len ==> {
                    &&& 1 <= (#[trigger] xs@[k])@.len()
                    &&& xs@[k]@.len() == ys@[k]@.len()
                    &&& xs@[k]@.len() == a_list@[k]@.len()
                    &&& xs@[k]@.len() == b_list@[k]@.len()
                    &&& xs@[k]@.len() == c_list@[k]@.len()
                    &&& shares_below(share_ints(xs@[k]@), p as int)
                    &&& shares_below(share_ints(ys@[k]@), p as int)
                    &&& shares_below(share_ints(a_list@[k]@), p as int)
                    &&& shares_below(share_ints(b_list@[k]@), p as int)
                    &&& shares_below(share_ints(c_list@[k]@), p as int)
                    &&& opened(share_ints(c_list@[k]@), p as int, c_list@[k]@.len()) == (opened(
                        share_ints(a_list@[k]@),
                        p as int,
                        a_list@[k]@.len(),
                    ) * opened(share_ints(b_list@[k]@), p as int, b_list@[k]@.len())) % (
                    p as int)
                },
            out@.len() == i,
            forall|k: int|
                0 <= k < i ==> {
                    &&& (#[trigger] out@[k])@.len() == xs@[k]@.len()
                    &&& shares_below(share_ints(out@[k]@), p as int)
                    &&& opened(share_ints(out@[k]@), p as int, out@[k]@.len()) == (opened(
                        share_ints(xs@[k]@),
                        p as int,
                        xs@[k]@.len(),
                    ) * opened(share_ints(ys@[k]@), p as int, ys@[k]@.len())) % (p as int)
                },
        decreases len - i,
    {
        let z = beaver_mul(&xs[i], &ys[i], &a_list[i], &b_list[i], &c_list[i], p);
        out.push(z);
        i = i + 1;
    }
    out
}

} // verus!
