//! Zero-knowledge proof of plaintext knowledge: an amortised Schnorr-style
//! proof that a batch of `sec` ciphertexts encrypts short plaintexts with
//! short randomness.
//!
//! The challenge is derived deterministically from the whole transcript
//! `(a, c)` by a mixing hash, so prover and verifier agree on it; the hash
//! is not a cryptographic one and stands where a collision-resistant hash
//! belongs.

use vstd::prelude::*;
use vstd::arithmetic::div_mod::{
    lemma_small_mod, lemma_mod_bound, lemma_add_mod_noop, lemma_add_mod_noop_right,
    lemma_mod_twice, lemma_mul_mod_noop_right,
};
use crate::arith::{bal, abs_int, modulus_bound, add_mod, sub_mod, mul_mod};
use crate::ring::{all_below, padd, pscale, pad_seq, neg_mul, zero_seq, norm_spec, Encodedtext};
use crate::ciphertext::{enc_c0_spec, enc_c1_spec, Ciphertext};
use crate::she::PublicKey;
use crate::plaintext::Plaintexts;
use crate::rng::gen_below;
use crate::error::{MpcError, NormKind};

verus! {

/// Proof-system parameters: `v = 2 * sec - 1` rows, ring degree `n`,
/// plaintext bound `tau`, batch size `sec`, randomness length `d = 3 * n`,
/// randomness bound `rho`, and the two moduli.
pub struct Parameters {
    v: i32,
    n: i32,
    tau: i32,
    sec: i32,
    d: i32,
    rho: i32,
    p: i128,
    q: i128,
}

impl Parameters {
    pub closed spec fn v_spec(&self) -> int {
        self.v as int
    }

    pub closed spec fn n_spec(&self) -> int {
        self.n as int
    }

    pub closed spec fn tau_spec(&self) -> int {
        self.tau as int
    }

    pub closed spec fn sec_spec(&self) -> int {
        self.sec as int
    }

    pub closed spec fn d_spec(&self) -> int {
        self.d as int
    }

    pub closed spec fn rho_spec(&self) -> int {
        self.rho as int
    }

    pub closed spec fn p_spec(&self) -> int {
        self.p as int
    }

    pub closed spec fn q_spec(&self) -> int {
        self.q as int
    }

    /// Conditions under which the protocol's arithmetic stays in range.
    pub open spec fn wf(&self) -> bool {
        &&& 1 <= self.sec_spec() <= 0x10000
        &&& self.v_spec() == 2 * self.sec_spec() - 1
        &&& 1 <= self.n_spec() <= 0x100000
        &&& 8 * self.n_spec() <= usize::MAX
        &&& self.d_spec() == 3 * self.n_spec()
        &&& 1 <= self.tau_spec() <= 0x100000
        &&& 1 <= self.rho_spec() <= 0x100000
        &&& 2 <= self.p_spec()
        &&& 4 * self.p_spec() < self.q_spec()
        &&& self.q_spec() <= modulus_bound()
        &&& 256 * self.n_spec() * self.tau_spec() * self.sec_spec() * self.sec_spec()
            < self.q_spec()
        &&& 256 * self.d_spec() * self.rho_spec() * self.sec_spec() * self.sec_spec()
            < self.q_spec()
    }

    pub fn new(v: i32, n: i32, tau: i32, sec: i32, d: i32, rho: i32, p: i128, q: i128) -> (r:
        Self)
        ensures
            r.v_spec() == v,
            r.n_spec() == n,
            r.tau_spec() == tau,
            r.sec_spec() == sec,
            r.d_spec() == d,
            r.rho_spec() == rho,
            r.p_spec() == p,
            r.q_spec() == q,
    {
        Self { v, n, tau, sec, d, rho, p, q }
    }

    pub fn get_q(&self) -> (r: i128)
        ensures
            r == self.q_spec(),
    {
        self.q
    }

    pub fn get_n(&self) -> (r: i32)
        ensures
            r == self.n_spec(),
    {
        self.n
    }

    fn n_usize(&self) -> (r: usize)
        requires
            self.wf(),
        ensures
            r == self.n_spec(),
    {
        self.n as usize
    }

    fn d_usize(&self) -> (r: usize)
        requires
            self.wf(),
        ensures
            r == self.d_spec(),
    {
        self.d as usize
    }

    fn v_usize(&self) -> (r: usize)
        requires
            self.wf(),
        ensures
            r == self.v_spec(),
    {
        self.v as usize
    }

    fn sec_usize(&self) -> (r: usize)
        requires
            self.wf(),
        ensures
            r == self.sec_spec(),
    {
        self.sec as usize
    }

    fn q_u128(&self) -> (r: u128)
        requires
            self.wf(),
        ensures
            r == self.q_spec(),
    {
        self.q as u128
    }

    fn p_u128(&self) -> (r: u128)
        requires
            self.wf(),
        ensures
            r == self.p_spec(),
    {
        self.p as u128
    }
}

/// The public statement: the key and the ciphertext batch to be validated.
pub struct Instance {
    pub pk: PublicKey,
    pub c: Vec<Ciphertext>,
}

impl Instance {
    /// Shape of a valid statement under the given parameters.
    pub open spec fn wf(&self, parameters: &Parameters) -> bool {
        &&& self.pk.a.wf()
        &&& self.pk.b.wf()
        &&& self.pk.a.q_spec() == parameters.q_spec()
        &&& self.pk.b.q_spec() == parameters.q_spec()
        &&& self.pk.a.coeffs().len() == parameters.n_spec()
        &&& self.pk.b.coeffs().len() == parameters.n_spec()
        &&& self.c@.len() == parameters.sec_spec()
        &&& forall|k: int|
            0 <= k < self.c@.len() ==> (#[trigger] self.c@[k]).wf()
                && self.c@[k].q_spec() == parameters.q_spec()
                && self.c@[k].c0.coeffs().len() == parameters.n_spec()
    }

    pub fn new(pk: PublicKey, c: Vec<Ciphertext>) -> (r: Self)
        ensures
            r.pk == pk,
            r.c == c,
    {
        Self { pk, c }
    }
}

/// The secret witness: plaintexts, their ring encodings, and the
/// encryption randomness of the batch.
pub struct Witness {
    pub m: Vec<Plaintexts>,
    pub x: Vec<Encodedtext>,
    pub r: Vec<Encodedtext>,
}

impl Witness {
    /// Shape of a witness for a batch of `sec` ciphertexts.
    pub open spec fn wf(&self, parameters: &Parameters) -> bool {
        &&& self.x@.len() == parameters.sec_spec()
        &&& self.r@.len() == parameters.sec_spec()
        &&& forall|k: int|
            0 <= k < self.x@.len() ==> (#[trigger] self.x@[k]).wf()
                && self.x@[k].q_spec() == parameters.q_spec()
                && self.x@[k].coeffs().len() == parameters.n_spec()
        &&& forall|k: int|
            0 <= k < self.r@.len() ==> (#[trigger] self.r@[k]).wf()
                && self.r@[k].q_spec() == parameters.q_spec()
                && self.r@[k].coeffs().len() == parameters.d_spec()
    }

    pub fn new(m: Vec<Plaintexts>, x: &Vec<Encodedtext>, r: &Vec<Encodedtext>) -> (w: Self)
        ensures
            w.m == m,
            w.x@.len() == x@.len(),
            w.r@.len() == r@.len(),
            forall|k: int|
                0 <= k < x@.len() ==> (#[trigger] w.x@[k]).coeffs() == x@[k].coeffs()
                    && w.x@[k].q_spec() == x@[k].q_spec() && w.x@[k].wf() == x@[k].wf(),
            forall|k: int|
                0 <= k < r@.len() ==> (#[trigger] w.r@[k]).coeffs() == r@[k].coeffs()
                    && w.r@[k].q_spec() == r@[k].q_spec() && w.r@[k].wf() == r@[k].wf(),
    {
        let mut xs: Vec<Encodedtext> = Vec::new();
        let mut i: usize = 0;
        while i < x.len()
            invariant
                i <= x@.len(),
                xs@.len() == i,
                forall|k: int|
                    0 <= k < i ==> (#[trigger] xs@[k]).coeffs() == x@[k].coeffs()
                        && xs@[k].q_spec() == x@[k].q_spec() && xs@[k].wf() == x@[k].wf(),
            decreases x@.len() - i,
        {
            xs.push(x[i].clone());
            i = i + 1;
        }
        let mut rs: Vec<Encodedtext> = Vec::new();
        let mut j: usize = 0;
        while j < r.len()
            invariant
                j <= r@.len(),
                rs@.len() == j,
                forall|k: int|
                    0 <= k < j ==> (#[trigger] rs@[k]).coeffs() == r@[k].coeffs()
                        && rs@[k].q_spec() == r@[k].q_spec() && rs@[k].wf() == r@[k].wf(),
            decreases r@.len() - j,
        {
            rs.push(r[j].clone());
            j = j + 1;
        }
        Self { m, x: xs, r: rs }
    }
}

/// The proof: `v` commitments, masked encodings `z`, and masked
/// randomness `t`.
pub struct Proof {
    pub a: Vec<Ciphertext>,
    pub z: Vec<Encodedtext>,
    pub t: Vec<Encodedtext>,
}

/// One step of the transcript mixing hash (a 64-bit linear congruential
/// step; deterministic, not collision-resistant).
pub open spec fn mix(h: int, v: int) -> int {
    (h * 6364136223846793005 + v % 0x1_0000_0000_0000_0000 + 1442695040888963407)
        % 0x1_0000_0000_0000_0000
}

/// The hash state after absorbing a coefficient sequence.
pub open spec fn mix_seq(h: int, s: Seq<int>) -> int
    decreases s.len(),
{
    if s.len() == 0 {
        h
    } else {
        mix_seq(mix(h, s[0]), s.subrange(1, s.len() as int))
    }
}

/// The hash state after absorbing a whole ciphertext.
pub open spec fn mix_ct(h: int, c: Ciphertext) -> int {
    mix_seq(mix_seq(mix_seq(h, c.c0.coeffs()), c.c1.coeffs()), c.c2.coeffs())
}

/// The hash state after absorbing a batch of ciphertexts.
pub open spec fn mix_cts(h: int, cs: Seq<Ciphertext>, i: nat) -> int
    decreases i,
{
    if i == 0 {
        h
    } else {
        mix_ct(mix_cts(h, cs, (i - 1) as nat), cs[i - 1])
    }
}

/// The hash state after `k` further squeezing steps.
pub open spec fn iter_mix(h: int, k: nat) -> int
    decreases k,
{
    if k == 0 {
        h
    } else {
        mix(iter_mix(h, (k - 1) as nat), k - 1)
    }
}

/// Challenge bit `j`, squeezed from the iterated state.
pub open spec fn challenge_bit(h: int, j: int) -> bool {
    (iter_mix(h, (j + 1) as nat) / 0x1_0000_0000) % 2 == 1
}

/// The `sec` challenge bits derived from the transcript `(pk, c, a)`.
pub open spec fn challenge_spec(
    pk: &crate::she::PublicKey,
    a: Seq<Ciphertext>,
    c: Seq<Ciphertext>,
    sec: int,
) -> Seq<bool> {
    let hk = mix_seq(mix_seq(0, pk.a.coeffs()), pk.b.coeffs());
    let h = mix_cts(mix_cts(hk, c, c.len()), a, a.len());
    Seq::new(sec as nat, |j: int| challenge_bit(h, j))
}

/// Entry `(i, k)` of the challenge matrix `M_e`.
pub open spec fn m_e_entry(e: Seq<bool>, i: int, k: int, sec: int) -> int {
    if i - k + 1 >= 1 && i - k < sec {
        if e[i - k] {
            1int
        } else {
            0int
        }
    } else {
        0int
    }
}

/// Row `i` of the challenge matrix.
pub open spec fn m_row(e: Seq<bool>, i: int, sec: int) -> Seq<int> {
    Seq::new(sec as nat, |k: int| m_e_entry(e, i, k, sec))
}

/// `sum_k row[k] * xs[k]` over the first `i` columns, each addend scaled
/// in R_q; the base case is the zero element of degree `deg`.
pub open spec fn dot_seq(row: Seq<int>, xs: Seq<Seq<int>>, deg: nat, q: int, i: nat) -> Seq<int>
    decreases i,
{
    if i == 0 {
        zero_seq(deg)
    } else {
        padd(dot_seq(row, xs, deg, q, (i - 1) as nat), pscale(xs[i - 1], row[i - 1], q), q)
    }
}

/// The proof has the shape the parameters call for.
pub open spec fn proof_shaped(pf: &Proof, parameters: &Parameters) -> bool {
    &&& pf.a@.len() == parameters.v_spec()
    &&& pf.z@.len() == parameters.v_spec()
    &&& pf.t@.len() == parameters.v_spec()
    &&& forall|i: int|
        0 <= i < pf.a@.len() ==> (#[trigger] pf.a@[i]).wf() && pf.a@[i].q_spec()
            == parameters.q_spec() && pf.a@[i].c0.coeffs().len() == parameters.n_spec()
    &&& forall|i: int|
        0 <= i < pf.z@.len() ==> (#[trigger] pf.z@[i]).wf() && pf.z@[i].q_spec()
            == parameters.q_spec() && pf.z@[i].coeffs().len() == parameters.n_spec()
    &&& forall|i: int|
        0 <= i < pf.t@.len() ==> (#[trigger] pf.t@[i]).wf() && pf.t@[i].q_spec()
            == parameters.q_spec() && pf.t@[i].coeffs().len() == parameters.d_spec()
}

/// The masking values drawn in the first move have the prescribed norms.
pub open spec fn masking_bounds(
    ys: Seq<Encodedtext>,
    ss: Seq<Encodedtext>,
    parameters: &Parameters,
) -> bool {
    &&& ys.len() == parameters.v_spec()
    &&& ss.len() == parameters.v_spec()
    &&& forall|i: int|
        0 <= i < ys.len() ==> (#[trigger] ys[i]).wf() && ys[i].q_spec() == parameters.q_spec()
            && ys[i].coeffs().len() == parameters.n_spec()
    &&& forall|i: int|
        0 <= i < ss.len() ==> (#[trigger] ss[i]).wf() && ss[i].q_spec() == parameters.q_spec()
            && ss[i].coeffs().len() == parameters.d_spec()
    &&& forall|i: int, k: int|
        0 <= i < ys.len() && 0 <= k < parameters.n_spec() ==> abs_int(
            bal(#[trigger] ys[i].coeffs()[k], parameters.q_spec()),
        ) < parameters.n_spec() * parameters.tau_spec() * parameters.sec_spec()
    &&& forall|i: int, k: int|
        0 <= i < ss.len() && 0 <= k < parameters.d_spec() ==> abs_int(
            bal(#[trigger] ss[i].coeffs()[k], parameters.q_spec()),
        ) < parameters.d_spec() * parameters.rho_spec() * parameters.sec_spec()
}

/// The proof is the honest transcript for the maskings `(ys, ss)`:
/// commitments encrypt the maskings, and the responses add the challenge
/// combination of the witness.
pub open spec fn honest_transcript(
    pf: &Proof,
    ys: Seq<Encodedtext>,
    ss: Seq<Encodedtext>,
    witness: &Witness,
    instance: &Instance,
    parameters: &Parameters,
) -> bool {
    let q = parameters.q_spec();
    let p = parameters.p_spec();
    let n = parameters.n_spec();
    let d = parameters.d_spec();
    let sec = parameters.sec_spec();
    let e = challenge_spec(&instance.pk, pf.a@, instance.c@, sec);
    let xs = witness.x@.map(|_i: int, et: Encodedtext| et.coeffs());
    let rs = witness.r@.map(|_i: int, et: Encodedtext| et.coeffs());
    &&& forall|i: int|
        0 <= i < pf.a@.len() ==> (#[trigger] pf.a@[i]).c0.coeffs() == crate::ciphertext::enc_c0_spec(
            ys[i].coeffs(),
            ss[i].coeffs().subrange(0, n),
            ss[i].coeffs().subrange(n, 2 * n),
            instance.pk.b.coeffs(),
            p,
            q,
        ) && pf.a@[i].c1.coeffs() == crate::ciphertext::enc_c1_spec(
            ss[i].coeffs().subrange(0, n),
            ss[i].coeffs().subrange(2 * n, 3 * n),
            instance.pk.a.coeffs(),
            p,
            q,
        ) && pf.a@[i].c2.coeffs() == zero_seq(n as nat)
    &&& forall|i: int|
        0 <= i < pf.z@.len() ==> (#[trigger] pf.z@[i]).coeffs() == padd(
            ys[i].coeffs(),
            dot_seq(m_row(e, i, sec), xs, n as nat, q, sec as nat),
            q,
        )
    &&& forall|i: int|
        0 <= i < pf.t@.len() ==> (#[trigger] pf.t@[i]).coeffs() == padd(
            ss[i].coeffs(),
            dot_seq(m_row(e, i, sec), rs, d as nat, q, sec as nat),
            q,
        )
}

/// The verification equation at row `i`:
/// `Enc(z_i; T_i) = a_i + sum_k M_e[i][k] * c_k`.
#[verifier::opaque]
pub open spec fn eq_holds_at(
    pf: &Proof,
    parameters: &Parameters,
    instance: &Instance,
    e: Seq<bool>,
    i: int,
) -> bool {
    let q = parameters.q_spec();
    let p = parameters.p_spec();
    let n = parameters.n_spec();
    let sec = parameters.sec_spec();
    let row = m_row(e, i, sec);
    let c0s = instance.c@.map(|_k: int, ct: Ciphertext| ct.c0.coeffs());
    let c1s = instance.c@.map(|_k: int, ct: Ciphertext| ct.c1.coeffs());
    let c2s = instance.c@.map(|_k: int, ct: Ciphertext| ct.c2.coeffs());
    &&& crate::ciphertext::enc_c0_spec(
        pf.z@[i].coeffs(),
        pf.t@[i].coeffs().subrange(0, n),
        pf.t@[i].coeffs().subrange(n, 2 * n),
        instance.pk.b.coeffs(),
        p,
        q,
    ) == padd(pf.a@[i].c0.coeffs(), dot_seq(row, c0s, n as nat, q, sec as nat), q)
    &&& crate::ciphertext::enc_c1_spec(
        pf.t@[i].coeffs().subrange(0, n),
        pf.t@[i].coeffs().subrange(2 * n, 3 * n),
        instance.pk.a.coeffs(),
        p,
        q,
    ) == padd(pf.a@[i].c1.coeffs(), dot_seq(row, c1s, n as nat, q, sec as nat), q)
    &&& zero_seq(n as nat) == padd(
        pf.a@[i].c2.coeffs(),
        dot_seq(row, c2s, n as nat, q, sec as nat),
        q,
    )
}

/// Largest balanced norm among the first `i` elements.
pub open spec fn max_norm(s: Seq<Encodedtext>, q: int, i: nat) -> int
    decreases i,
{
    if i == 0 {
        0int
    } else {
        let prev = max_norm(s, q, (i - 1) as nat);
        let cur = norm_spec(s[i - 1].coeffs(), q);
        if cur > prev {
            cur
        } else {
            prev
        }
    }
}

/// Everything `verify` accepts: the right shape, every row equation, and
/// both norm bounds.
pub open spec fn verify_ok(pf: &Proof, parameters: &Parameters, instance: &Instance) -> bool {
    let e = challenge_spec(&instance.pk, pf.a@, instance.c@, parameters.sec_spec());
    &&& proof_shaped(pf, parameters)
    &&& forall|i: int| 0 <= i < parameters.v_spec() ==> eq_holds_at(pf, parameters, instance, e, i)
    &&& max_norm(pf.z@, parameters.q_spec(), pf.z@.len()) < 128 * parameters.n_spec()
        * parameters.tau_spec() * parameters.sec_spec() * parameters.sec_spec()
    &&& max_norm(pf.t@, parameters.q_spec(), pf.t@.len()) < 128 * parameters.d_spec()
        * parameters.rho_spec() * parameters.sec_spec() * parameters.sec_spec()
}

/// The linear-combination fold keeps length `deg`.
proof fn lemma_dot_seq_len(row: Seq<int>, xs: Seq<Seq<int>>, deg: nat, q: int, i: nat)
    ensures
        dot_seq(row, xs, deg, q, i).len() == deg,
    decreases i,
{
    if i > 0 {
        lemma_dot_seq_len(row, xs, deg, q, (i - 1) as nat);
    }
}

/// The linear-combination fold yields reduced residues.
proof fn lemma_dot_seq_below(row: Seq<int>, xs: Seq<Seq<int>>, deg: nat, q: int, i: nat)
    requires
        1 <= q,
    ensures
        all_below(dot_seq(row, xs, deg, q, i), q),
    decreases i,
{
    lemma_dot_seq_len(row, xs, deg, q, i);
    if i > 0 {
        lemma_dot_seq_below(row, xs, deg, q, (i - 1) as nat);
        lemma_dot_seq_len(row, xs, deg, q, (i - 1) as nat);
        assert forall|k: int| 0 <= k < deg implies 0 <= #[trigger] dot_seq(
            row,
            xs,
            deg,
            q,
            i,
        )[k] < q by {
            lemma_mod_bound(
                dot_seq(row, xs, deg, q, (i - 1) as nat)[k] + pscale(xs[i - 1], row[i - 1], q)[k],
                q,
            );
        }
    } else {
        assert forall|k: int| 0 <= k < deg implies 0 <= #[trigger] dot_seq(
            row,
            xs,
            deg,
            q,
            i,
        )[k] < q by {}
    }
}

/// A sequence made of one subrange of each operand.
pub open spec fn sub_each(xs: Seq<Seq<int>>, lo: int, hi: int) -> Seq<Seq<int>> {
    Seq::new(xs.len(), |t: int| xs[t].subrange(lo, hi))
}

/// Taking a subrange commutes with the pointwise modular sum.
proof fn lemma_padd_subrange(a: Seq<int>, b: Seq<int>, q: int, lo: int, hi: int)
    requires
        a.len() == b.len(),
        0 <= lo <= hi <= a.len(),
    ensures
        padd(a, b, q).subrange(lo, hi) == padd(a.subrange(lo, hi), b.subrange(lo, hi), q),
{
    assert(padd(a, b, q).subrange(lo, hi) =~= padd(a.subrange(lo, hi), b.subrange(lo, hi), q));
}

/// Taking a subrange commutes with the linear-combination fold.
proof fn lemma_dot_subrange(
    row: Seq<int>,
    xs: Seq<Seq<int>>,
    deg: nat,
    q: int,
    i: nat,
    lo: int,
    hi: int,
)
    requires
        1 <= q,
        0 <= lo <= hi <= deg,
        forall|k: int| 0 <= k < xs.len() ==> (#[trigger] xs[k]).len() == deg,
        i <= xs.len(),
    ensures
        dot_seq(row, xs, deg, q, i).subrange(lo, hi) == dot_seq(
            row,
            sub_each(xs, lo, hi),
            (hi - lo) as nat,
            q,
            i,
        ),
    decreases i,
{
    lemma_dot_seq_len(row, xs, deg, q, i);
    if i == 0 {
        assert(zero_seq(deg).subrange(lo, hi) =~= zero_seq((hi - lo) as nat));
    } else {
        lemma_dot_subrange(row, xs, deg, q, (i - 1) as nat, lo, hi);
        lemma_dot_seq_len(row, xs, deg, q, (i - 1) as nat);
        lemma_dot_seq_len(row, sub_each(xs, lo, hi), (hi - lo) as nat, q, (i - 1) as nat);
        let prev = dot_seq(row, xs, deg, q, (i - 1) as nat);
        let sc = pscale(xs[i - 1], row[i - 1], q);
        lemma_padd_subrange(prev, sc, q, lo, hi);
        assert(sc.subrange(lo, hi) =~= pscale(sub_each(xs, lo, hi)[i - 1], row[i - 1], q));
        assert(dot_seq(row, xs, deg, q, i).subrange(lo, hi) == padd(
            prev.subrange(lo, hi),
            sc.subrange(lo, hi),
            q,
        ));
    }
}

/// Fresh encryption (first component) is additive in plaintext and
/// randomness jointly.
proof fn lemma_enc_c0_add(
    x1: Seq<int>,
    u1: Seq<int>,
    v1: Seq<int>,
    x2: Seq<int>,
    u2: Seq<int>,
    v2: Seq<int>,
    b: Seq<int>,
    p: int,
    q: int,
)
    requires
        1 <= q,
        x1.len() == b.len(),
        u1.len() == b.len(),
        v1.len() == b.len(),
        x2.len() == b.len(),
        u2.len() == b.len(),
        v2.len() == b.len(),
    ensures
        enc_c0_spec(padd(x1, x2, q), padd(u1, u2, q), padd(v1, v2, q), b, p, q) == padd(
            enc_c0_spec(x1, u1, v1, b, p, q),
            enc_c0_spec(x2, u2, v2, b, p, q),
            q,
        ),
{
    crate::ring::lemma_neg_mul_add_right(b, u1, u2, q);
    crate::ring::lemma_pscale_add(v1, v2, p, q);
    crate::ring::lemma_padd_rearrange(
        neg_mul(b, u1, q),
        pscale(v1, p, q),
        x1,
        neg_mul(b, u2, q),
        pscale(v2, p, q),
        x2,
        q,
    );
}

/// Fresh encryption (second component) is additive in the randomness.
proof fn lemma_enc_c1_add(
    u1: Seq<int>,
    w1: Seq<int>,
    u2: Seq<int>,
    w2: Seq<int>,
    a: Seq<int>,
    p: int,
    q: int,
)
    requires
        1 <= q,
        u1.len() == a.len(),
        w1.len() == a.len(),
        u2.len() == a.len(),
        w2.len() == a.len(),
    ensures
        enc_c1_spec(padd(u1, u2, q), padd(w1, w2, q), a, p, q) == padd(
            enc_c1_spec(u1, w1, a, p, q),
            enc_c1_spec(u2, w2, a, p, q),
            q,
        ),
{
    crate::ring::lemma_neg_mul_add_right(a, u1, u2, q);
    crate::ring::lemma_pscale_add(w1, w2, p, q);
    let n1 = neg_mul(a, u1, q);
    let n2 = neg_mul(a, u2, q);
    let s1 = pscale(w1, p, q);
    let s2 = pscale(w2, p, q);
    assert forall|j: int| 0 <= j < a.len() implies padd(padd(n1, n2, q), padd(s1, s2, q), q)[j]
        == padd(padd(n1, s1, q), padd(n2, s2, q), q)[j] by {
        let aa = n1[j];
        let bb = n2[j];
        let cc = s1[j];
        let dd = s2[j];
        lemma_add_mod_noop(aa, bb, q);
        lemma_add_mod_noop(cc, dd, q);
        lemma_add_mod_noop((aa + bb) % q, (cc + dd) % q, q);
        lemma_mod_twice(aa + bb, q);
        lemma_mod_twice(cc + dd, q);
        lemma_add_mod_noop(aa + bb, cc + dd, q);
        lemma_add_mod_noop(aa, cc, q);
        lemma_add_mod_noop(bb, dd, q);
        lemma_add_mod_noop((aa + cc) % q, (bb + dd) % q, q);
        lemma_mod_twice(aa + cc, q);
        lemma_mod_twice(bb + dd, q);
        lemma_add_mod_noop(aa + cc, bb + dd, q);
    }
    assert(padd(padd(n1, n2, q), padd(s1, s2, q), q) =~= padd(
        padd(n1, s1, q),
        padd(n2, s2, q),
        q,
    ));
}

/// Encrypting zeros with zero randomness gives the zero triple (first
/// component).
proof fn lemma_enc_c0_zero(b: Seq<int>, p: int, q: int)
    requires
        1 <= q,
    ensures
        enc_c0_spec(
            zero_seq(b.len()),
            zero_seq(b.len()),
            zero_seq(b.len()),
            b,
            p,
            q,
        ) == zero_seq(b.len()),
{
    crate::ring::lemma_neg_mul_zero_right(b, q);
    crate::ring::lemma_pscale_zero(b.len(), p, q);
    crate::ring::lemma_padd_zero(zero_seq(b.len()), q);
    assert(all_below(zero_seq(b.len()), q));
}

/// Encrypting with zero randomness gives zero (second component).
proof fn lemma_enc_c1_zero(a: Seq<int>, p: int, q: int)
    requires
        1 <= q,
    ensures
        enc_c1_spec(zero_seq(a.len()), zero_seq(a.len()), a, p, q) == zero_seq(a.len()),
{
    crate::ring::lemma_neg_mul_zero_right(a, q);
    crate::ring::lemma_pscale_zero(a.len(), p, q);
    crate::ring::lemma_padd_zero(zero_seq(a.len()), q);
    assert(all_below(zero_seq(a.len()), q));
}

/// Folding encryptions: the challenge combination of fresh encryptions is
/// the fresh encryption of the challenge combinations (first component).
proof fn lemma_dot_enc_c0(
    row: Seq<int>,
    xs: Seq<Seq<int>>,
    us: Seq<Seq<int>>,
    vs: Seq<Seq<int>>,
    c0s: Seq<Seq<int>>,
    b: Seq<int>,
    p: int,
    q: int,
    j: nat,
)
    requires
        1 <= q,
        j <= xs.len(),
        xs.len() == us.len(),
        xs.len() == vs.len(),
        xs.len() == c0s.len(),
        forall|k: int| 0 <= k < row.len() ==> #[trigger] row[k] == 0 || row[k] == 1,
        j <= row.len(),
        forall|k: int| 0 <= k < xs.len() ==> (#[trigger] xs[k]).len() == b.len(),
        forall|k: int| 0 <= k < us.len() ==> (#[trigger] us[k]).len() == b.len(),
        forall|k: int| 0 <= k < vs.len() ==> (#[trigger] vs[k]).len() == b.len(),
        forall|k: int| 0 <= k < c0s.len() ==> (#[trigger] c0s[k]).len() == b.len(),
        forall|k: int| 0 <= k < c0s.len() ==> all_below(#[trigger] c0s[k], q),
        forall|k: int|
            0 <= k < c0s.len() ==> #[trigger] c0s[k] == enc_c0_spec(xs[k], us[k], vs[k], b, p, q),
    ensures
        enc_c0_spec(
            dot_seq(row, xs, b.len(), q, j),
            dot_seq(row, us, b.len(), q, j),
            dot_seq(row, vs, b.len(), q, j),
            b,
            p,
            q,
        ) == dot_seq(row, c0s, b.len(), q, j),
    decreases j,
{
    let n = b.len();
    lemma_dot_seq_len(row, xs, n, q, j);
    lemma_dot_seq_len(row, us, n, q, j);
    lemma_dot_seq_len(row, vs, n, q, j);
    if j == 0 {
        lemma_enc_c0_zero(b, p, q);
    } else {
        lemma_dot_enc_c0(row, xs, us, vs, c0s, b, p, q, (j - 1) as nat);
        lemma_dot_seq_len(row, xs, n, q, (j - 1) as nat);
        lemma_dot_seq_len(row, us, n, q, (j - 1) as nat);
        lemma_dot_seq_len(row, vs, n, q, (j - 1) as nat);
        lemma_dot_seq_len(row, c0s, n, q, (j - 1) as nat);
        lemma_dot_seq_below(row, xs, n, q, (j - 1) as nat);
        lemma_dot_seq_below(row, us, n, q, (j - 1) as nat);
        lemma_dot_seq_below(row, vs, n, q, (j - 1) as nat);
        lemma_dot_seq_below(row, c0s, n, q, (j - 1) as nat);
        let dx = dot_seq(row, xs, n, q, (j - 1) as nat);
        let du = dot_seq(row, us, n, q, (j - 1) as nat);
        let dv = dot_seq(row, vs, n, q, (j - 1) as nat);
        let dc = dot_seq(row, c0s, n, q, (j - 1) as nat);
        if row[j - 1] == 1 {
            crate::ring::lemma_pscale_one(c0s[j - 1], q);
            lemma_enc_c0_add(dx, du, dv, pscale(xs[j - 1], 1, q), pscale(us[j - 1], 1, q),
                pscale(vs[j - 1], 1, q), b, p, q);
            // scaling by one leaves each addend as a residue-equal sequence
            assert forall|t: int| 0 <= t < n implies (#[trigger] padd(dx, pscale(xs[j - 1], 1int, q), q)[t])
                == padd(dx, xs[j - 1], q)[t] by {
                lemma_mul_mod_noop_right(1, xs[j - 1][t], q);
                lemma_add_mod_noop_right(dx[t], xs[j - 1][t], q);
                lemma_add_mod_noop_right(dx[t], 1 * xs[j - 1][t], q);
            }
            assert(padd(dx, pscale(xs[j - 1], 1int, q), q) =~= padd(dx, xs[j - 1], q));
            assert forall|t: int| 0 <= t < n implies (#[trigger] padd(du, pscale(us[j - 1], 1int, q), q)[t])
                == padd(du, us[j - 1], q)[t] by {
                lemma_mul_mod_noop_right(1, us[j - 1][t], q);
                lemma_add_mod_noop_right(du[t], us[j - 1][t], q);
                lemma_add_mod_noop_right(du[t], 1 * us[j - 1][t], q);
            }
            assert(padd(du, pscale(us[j - 1], 1int, q), q) =~= padd(du, us[j - 1], q));
            assert forall|t: int| 0 <= t < n implies (#[trigger] padd(dv, pscale(vs[j - 1], 1int, q), q)[t])
                == padd(dv, vs[j - 1], q)[t] by {
                lemma_mul_mod_noop_right(1, vs[j - 1][t], q);
                lemma_add_mod_noop_right(dv[t], vs[j - 1][t], q);
                lemma_add_mod_noop_right(dv[t], 1 * vs[j - 1][t], q);
            }
            assert(padd(dv, pscale(vs[j - 1], 1int, q), q) =~= padd(dv, vs[j - 1], q));
            // and the encryption of one addend pair is one statement row
            lemma_enc_c0_add(dx, du, dv, xs[j - 1], us[j - 1], vs[j - 1], b, p, q);
        } else {
            crate::ring::lemma_pscale_zero(n, row[j - 1], q);
            assert(pscale(xs[j - 1], 0int, q) =~= zero_seq(n)) by {
                crate::ring::lemma_pscale_zero(n, 0, q);
                assert forall|t: int| 0 <= t < n implies (#[trigger] pscale(xs[j - 1], 0int, q)[t]) == 0int
                    by {
                    lemma_small_mod(0nat, q as nat);
                }
            }
            assert(pscale(us[j - 1], 0int, q) =~= zero_seq(n)) by {
                assert forall|t: int| 0 <= t < n implies (#[trigger] pscale(us[j - 1], 0int, q)[t]) == 0int
                    by {
                    lemma_small_mod(0nat, q as nat);
                }
            }
            assert(pscale(vs[j - 1], 0int, q) =~= zero_seq(n)) by {
                assert forall|t: int| 0 <= t < n implies (#[trigger] pscale(vs[j - 1], 0int, q)[t]) == 0int
                    by {
                    lemma_small_mod(0nat, q as nat);
                }
            }
            assert(pscale(c0s[j - 1], 0int, q) =~= zero_seq(n)) by {
                assert forall|t: int| 0 <= t < n implies (#[trigger] pscale(c0s[j - 1], 0int, q)[t]) == 0int
                    by {
                    lemma_small_mod(0nat, q as nat);
                }
            }
            crate::ring::lemma_padd_zero(dx, q);
            crate::ring::lemma_padd_zero(du, q);
            crate::ring::lemma_padd_zero(dv, q);
            crate::ring::lemma_padd_zero(dc, q);
        }
    }
}

/// Folding encryptions, second component.
proof fn lemma_dot_enc_c1(
    row: Seq<int>,
    us: Seq<Seq<int>>,
    ws: Seq<Seq<int>>,
    c1s: Seq<Seq<int>>,
    a: Seq<int>,
    p: int,
    q: int,
    j: nat,
)
    requires
        1 <= q,
        j <= us.len(),
        us.len() == ws.len(),
        us.len() == c1s.len(),
        forall|k: int| 0 <= k < row.len() ==> #[trigger] row[k] == 0 || row[k] == 1,
        j <= row.len(),
        forall|k: int| 0 <= k < us.len() ==> (#[trigger] us[k]).len() == a.len(),
        forall|k: int| 0 <= k < ws.len() ==> (#[trigger] ws[k]).len() == a.len(),
        forall|k: int| 0 <= k < c1s.len() ==> (#[trigger] c1s[k]).len() == a.len(),
        forall|k: int| 0 <= k < c1s.len() ==> all_below(#[trigger] c1s[k], q),
        forall|k: int|
            0 <= k < c1s.len() ==> #[trigger] c1s[k] == enc_c1_spec(us[k], ws[k], a, p, q),
    ensures
        enc_c1_spec(
            dot_seq(row, us, a.len(), q, j),
            dot_seq(row, ws, a.len(), q, j),
            a,
            p,
            q,
        ) == dot_seq(row, c1s, a.len(), q, j),
    decreases j,
{
    let n = a.len();
    lemma_dot_seq_len(row, us, n, q, j);
    lemma_dot_seq_len(row, ws, n, q, j);
    if j == 0 {
        lemma_enc_c1_zero(a, p, q);
    } else {
        lemma_dot_enc_c1(row, us, ws, c1s, a, p, q, (j - 1) as nat);
        lemma_dot_seq_len(row, us, n, q, (j - 1) as nat);
        lemma_dot_seq_len(row, ws, n, q, (j - 1) as nat);
        lemma_dot_seq_len(row, c1s, n, q, (j - 1) as nat);
        lemma_dot_seq_below(row, us, n, q, (j - 1) as nat);
        lemma_dot_seq_below(row, ws, n, q, (j - 1) as nat);
        lemma_dot_seq_below(row, c1s, n, q, (j - 1) as nat);
        let du = dot_seq(row, us, n, q, (j - 1) as nat);
        let dw = dot_seq(row, ws, n, q, (j - 1) as nat);
        let dc = dot_seq(row, c1s, n, q, (j - 1) as nat);
        if row[j - 1] == 1 {
            crate::ring::lemma_pscale_one(c1s[j - 1], q);
            assert forall|t: int| 0 <= t < n implies (#[trigger] padd(
                du,
                pscale(us[j - 1], 1int, q),
                q,
            )[t]) == padd(du, us[j - 1], q)[t] by {
                lemma_mul_mod_noop_right(1, us[j - 1][t], q);
                lemma_add_mod_noop_right(du[t], us[j - 1][t], q);
                lemma_add_mod_noop_right(du[t], 1 * us[j - 1][t], q);
            }
            assert(padd(du, pscale(us[j - 1], 1int, q), q) =~= padd(du, us[j - 1], q));
            assert forall|t: int| 0 <= t < n implies (#[trigger] padd(
                dw,
                pscale(ws[j - 1], 1int, q),
                q,
            )[t]) == padd(dw, ws[j - 1], q)[t] by {
                lemma_mul_mod_noop_right(1, ws[j - 1][t], q);
                lemma_add_mod_noop_right(dw[t], ws[j - 1][t], q);
                lemma_add_mod_noop_right(dw[t], 1 * ws[j - 1][t], q);
            }
            assert(padd(dw, pscale(ws[j - 1], 1int, q), q) =~= padd(dw, ws[j - 1], q));
            lemma_enc_c1_add(du, dw, us[j - 1], ws[j - 1], a, p, q);
        } else {
            assert(pscale(us[j - 1], 0int, q) =~= zero_seq(n)) by {
                assert forall|t: int| 0 <= t < n implies (#[trigger] pscale(
                    us[j - 1],
                    0int,
                    q,
                )[t]) == 0int by {
                    lemma_small_mod(0nat, q as nat);
                }
            }
            assert(pscale(ws[j - 1], 0int, q) =~= zero_seq(n)) by {
                assert forall|t: int| 0 <= t < n implies (#[trigger] pscale(
                    ws[j - 1],
                    0int,
                    q,
                )[t]) == 0int by {
                    lemma_small_mod(0nat, q as nat);
                }
            }
            assert(pscale(c1s[j - 1], 0int, q) =~= zero_seq(n)) by {
                assert forall|t: int| 0 <= t < n implies (#[trigger] pscale(
                    c1s[j - 1],
                    0int,
                    q,
                )[t]) == 0int by {
                    lemma_small_mod(0nat, q as nat);
                }
            }
            crate::ring::lemma_padd_zero(du, q);
            crate::ring::lemma_padd_zero(dw, q);
            crate::ring::lemma_padd_zero(dc, q);
        }
    }
}

/// The challenge combination of zero components is zero.
proof fn lemma_dot_zero(row: Seq<int>, zs: Seq<Seq<int>>, n: nat, q: int, j: nat)
    requires
        1 <= q,
        forall|k: int| 0 <= k < zs.len() ==> #[trigger] zs[k] == zero_seq(n),
        j <= zs.len(),
    ensures
        dot_seq(row, zs, n, q, j) == zero_seq(n),
    decreases j,
{
    if j > 0 {
        lemma_dot_zero(row, zs, n, q, (j - 1) as nat);
        assert(pscale(zs[j - 1], row[j - 1], q) =~= zero_seq(n)) by {
            assert forall|t: int| 0 <= t < n implies (#[trigger] pscale(
                zs[j - 1],
                row[j - 1],
                q,
            )[t]) == 0int by {
                vstd::arithmetic::mul::lemma_mul_by_zero_is_zero(row[j - 1]);
                lemma_small_mod(0nat, q as nat);
            }
        }
        crate::ring::lemma_padd_zero(zero_seq(n), q);
        assert(all_below(zero_seq(n), q));
    }
}

/// Law: completeness of the proof system.  An honest transcript for a
/// valid witness satisfies every verification row equation; together with
/// the norm bounds (stated here as hypotheses, as the honest maskings
/// respect them) the verifier accepts.
pub proof fn lemma_zkpopk_completeness(
    pf: &Proof,
    ys: Seq<Encodedtext>,
    ss: Seq<Encodedtext>,
    witness: &Witness,
    instance: &Instance,
    parameters: &Parameters,
)
    requires
        parameters.wf(),
        instance.wf(parameters),
        witness.wf(parameters),
        proof_shaped(pf, parameters),
        masking_bounds(ys, ss, parameters),
        honest_transcript(pf, ys, ss, witness, instance, parameters),
        // the witness opens the statement
        forall|k: int|
            0 <= k < parameters.sec_spec() ==> (#[trigger] instance.c@[k]).c0.coeffs()
                == enc_c0_spec(
                witness.x@[k].coeffs(),
                witness.r@[k].coeffs().subrange(0, parameters.n_spec()),
                witness.r@[k].coeffs().subrange(parameters.n_spec(), 2 * parameters.n_spec()),
                instance.pk.b.coeffs(),
                parameters.p_spec(),
                parameters.q_spec(),
            ) && instance.c@[k].c1.coeffs() == enc_c1_spec(
                witness.r@[k].coeffs().subrange(0, parameters.n_spec()),
                witness.r@[k].coeffs().subrange(
                    2 * parameters.n_spec(),
                    3 * parameters.n_spec(),
                ),
                instance.pk.a.coeffs(),
                parameters.p_spec(),
                parameters.q_spec(),
            ) && instance.c@[k].c2.coeffs() == zero_seq(parameters.n_spec() as nat),
        // norm bounds of the honest responses
        max_norm(pf.z@, parameters.q_spec(), pf.z@.len()) < 128 * parameters.n_spec()
            * parameters.tau_spec() * parameters.sec_spec() * parameters.sec_spec(),
        max_norm(pf.t@, parameters.q_spec(), pf.t@.len()) < 128 * parameters.d_spec()
            * parameters.rho_spec() * parameters.sec_spec() * parameters.sec_spec(),
    ensures
        verify_ok(pf, parameters, instance),
{
    let q = parameters.q_spec();
    let p = parameters.p_spec();
    let n = parameters.n_spec();
    let d = parameters.d_spec();
    let sec = parameters.sec_spec();
    let e = challenge_spec(&instance.pk, pf.a@, instance.c@, sec);
    let xs = witness.x@.map(|_i: int, et: Encodedtext| et.coeffs());
    let rs = witness.r@.map(|_i: int, et: Encodedtext| et.coeffs());
    let c0s = instance.c@.map(|_k: int, ct: Ciphertext| ct.c0.coeffs());
    let c1s = instance.c@.map(|_k: int, ct: Ciphertext| ct.c1.coeffs());
    let c2s = instance.c@.map(|_k: int, ct: Ciphertext| ct.c2.coeffs());
    assert forall|i: int| 0 <= i < parameters.v_spec() implies eq_holds_at(
        pf,
        parameters,
        instance,
        e,
        i,
    ) by {
        reveal(eq_holds_at);
        let row = m_row(e, i, sec);
        assert(forall|k: int| 0 <= k < row.len() ==> #[trigger] row[k] == 0 || row[k] == 1);
        let rsu = sub_each(rs, 0, n);
        let rsv = sub_each(rs, n, 2 * n);
        let rsw = sub_each(rs, 2 * n, 3 * n);
        // the responses decompose into masking plus challenge combination
        let dx = dot_seq(row, xs, n as nat, q, sec as nat);
        let dr = dot_seq(row, rs, d as nat, q, sec as nat);
        assert(pf.z@[i].coeffs() == padd(ys[i].coeffs(), dx, q));
        assert(pf.t@[i].coeffs() == padd(ss[i].coeffs(), dr, q));
        lemma_dot_seq_len(row, xs, n as nat, q, sec as nat);
        lemma_dot_seq_len(row, rs, d as nat, q, sec as nat);
        // subranges of the randomness response
        lemma_padd_subrange(ss[i].coeffs(), dr, q, 0, n);
        lemma_padd_subrange(ss[i].coeffs(), dr, q, n, 2 * n);
        lemma_padd_subrange(ss[i].coeffs(), dr, q, 2 * n, 3 * n);
        lemma_dot_subrange(row, rs, d as nat, q, sec as nat, 0, n);
        lemma_dot_subrange(row, rs, d as nat, q, sec as nat, n, 2 * n);
        lemma_dot_subrange(row, rs, d as nat, q, sec as nat, 2 * n, 3 * n);
        assert(pf.t@[i].coeffs().subrange(0, n) == padd(
            ss[i].coeffs().subrange(0, n),
            dot_seq(row, rsu, n as nat, q, sec as nat),
            q,
        ));
        assert(pf.t@[i].coeffs().subrange(n, 2 * n) == padd(
            ss[i].coeffs().subrange(n, 2 * n),
            dot_seq(row, rsv, n as nat, q, sec as nat),
            q,
        ));
        assert(pf.t@[i].coeffs().subrange(2 * n, 3 * n) == padd(
            ss[i].coeffs().subrange(2 * n, 3 * n),
            dot_seq(row, rsw, n as nat, q, sec as nat),
            q,
        ));
        // facts about the statement rows
        assert forall|k: int| 0 <= k < sec implies (#[trigger] c0s[k]) == enc_c0_spec(
            xs[k],
            rsu[k],
            rsv[k],
            instance.pk.b.coeffs(),
            p,
            q,
        ) && c1s[k] == enc_c1_spec(rsu[k], rsw[k], instance.pk.a.coeffs(), p, q) && c2s[k]
            == zero_seq(n as nat) && all_below(c0s[k], q) && all_below(c1s[k], q) && c0s[k].len()
            == n && c1s[k].len() == n && xs[k].len() == n && rsu[k].len() == n && rsv[k].len()
            == n && rsw[k].len() == n by {
            assert(instance.c@[k].wf());
            assert(witness.x@[k].wf());
            assert(witness.r@[k].wf());
        }
        // first component
        lemma_dot_enc_c0(
            row,
            xs,
            rsu,
            rsv,
            c0s,
            instance.pk.b.coeffs(),
            p,
            q,
            sec as nat,
        );
        lemma_enc_c0_add(
            ys[i].coeffs(),
            ss[i].coeffs().subrange(0, n),
            ss[i].coeffs().subrange(n, 2 * n),
            dx,
            dot_seq(row, rsu, n as nat, q, sec as nat),
            dot_seq(row, rsv, n as nat, q, sec as nat),
            instance.pk.b.coeffs(),
            p,
            q,
        );
        lemma_dot_seq_len(row, rsu, n as nat, q, sec as nat);
        lemma_dot_seq_len(row, rsv, n as nat, q, sec as nat);
        lemma_dot_seq_len(row, rsw, n as nat, q, sec as nat);
        assert(enc_c0_spec(
            pf.z@[i].coeffs(),
            pf.t@[i].coeffs().subrange(0, n),
            pf.t@[i].coeffs().subrange(n, 2 * n),
            instance.pk.b.coeffs(),
            p,
            q,
        ) == padd(pf.a@[i].c0.coeffs(), dot_seq(row, c0s, n as nat, q, sec as nat), q));
        // second component
        lemma_dot_enc_c1(row, rsu, rsw, c1s, instance.pk.a.coeffs(), p, q, sec as nat);
        lemma_enc_c1_add(
            ss[i].coeffs().subrange(0, n),
            ss[i].coeffs().subrange(2 * n, 3 * n),
            dot_seq(row, rsu, n as nat, q, sec as nat),
            dot_seq(row, rsw, n as nat, q, sec as nat),
            instance.pk.a.coeffs(),
            p,
            q,
        );
        assert(enc_c1_spec(
            pf.t@[i].coeffs().subrange(0, n),
            pf.t@[i].coeffs().subrange(2 * n, 3 * n),
            instance.pk.a.coeffs(),
            p,
            q,
        ) == padd(pf.a@[i].c1.coeffs(), dot_seq(row, c1s, n as nat, q, sec as nat), q));
        // third component: everything in sight is zero
        lemma_dot_zero(row, c2s, n as nat, q, sec as nat);
        crate::ring::lemma_padd_zero(zero_seq(n as nat), q);
        assert(all_below(zero_seq(n as nat), q));
        assert(pf.a@[i].c2.coeffs() == zero_seq(n as nat));
        assert(zero_seq(n as nat) == padd(
            pf.a@[i].c2.coeffs(),
            dot_seq(row, c2s, n as nat, q, sec as nat),
            q,
        ));
    }
}

/// Law: tampering with a response is caught.  If a proof verifies, then a
/// proof that differs from it in exactly one coefficient of one `z` row
/// (commitments and `t` unchanged) is rejected: the changed coefficient
/// shifts one side of that row's equation and no other value moves.
pub proof fn lemma_tampered_z_rejected(
    pf: &Proof,
    pf2: &Proof,
    parameters: &Parameters,
    instance: &Instance,
    i0: int,
    k0: int,
)
    requires
        parameters.wf(),
        instance.wf(parameters),
        verify_ok(pf, parameters, instance),
        proof_shaped(pf2, parameters),
        pf2.a@ == pf.a@,
        pf2.t@ == pf.t@,
        0 <= i0 < parameters.v_spec(),
        0 <= k0 < parameters.n_spec(),
        forall|i: int| 0 <= i < pf2.z@.len() && i != i0 ==> #[trigger] pf2.z@[i] == pf.z@[i],
        forall|k: int|
            0 <= k < parameters.n_spec() && k != k0 ==> #[trigger] pf2.z@[i0].coeffs()[k] == pf.z@[
            i0].coeffs()[k],
        pf2.z@[i0].coeffs()[k0] != pf.z@[i0].coeffs()[k0],
    ensures
        !verify_ok(pf2, parameters, instance),
{
    let q = parameters.q_spec();
    let p = parameters.p_spec();
    let n = parameters.n_spec();
    let sec = parameters.sec_spec();
    let e = challenge_spec(&instance.pk, pf.a@, instance.c@, sec);
    assert(challenge_spec(&instance.pk, pf2.a@, instance.c@, sec) == e);
    let z1 = pf.z@[i0].coeffs();
    let z2 = pf2.z@[i0].coeffs();
    let t = pf.t@[i0].coeffs();
    let inner = padd(
        neg_mul(instance.pk.b.coeffs(), t.subrange(0, n), q),
        pscale(t.subrange(n, 2 * n), p, q),
        q,
    );
    let rhs = padd(
        pf.a@[i0].c0.coeffs(),
        dot_seq(
            m_row(e, i0, sec),
            instance.c@.map(|_k: int, ct: Ciphertext| ct.c0.coeffs()),
            n as nat,
            q,
            sec as nat,
        ),
        q,
    );
    if verify_ok(pf2, parameters, instance) {
        assert(eq_holds_at(pf2, parameters, instance, e, i0));
        assert(eq_holds_at(pf, parameters, instance, e, i0));
        reveal(eq_holds_at);
        // both row equations pin the same right-hand side coefficient
        assert(enc_c0_spec(z1, t.subrange(0, n), t.subrange(n, 2 * n), instance.pk.b.coeffs(),
            p, q) == rhs);
        assert(enc_c0_spec(z2, t.subrange(0, n), t.subrange(n, 2 * n), instance.pk.b.coeffs(),
            p, q) == rhs);
        assert((inner[k0] + z1[k0]) % q == rhs[k0]);
        assert((inner[k0] + z2[k0]) % q == rhs[k0]);
        // cancel the common term: both coefficients are reduced residues
        assert(0 <= z1[k0] < q);
        assert(0 <= z2[k0] < q);
        vstd::arithmetic::div_mod::lemma_mod_equivalence(inner[k0] + z1[k0], inner[k0] + z2[k0], q);
        assert((z1[k0] - z2[k0]) % q == 0);
        if z1[k0] > z2[k0] {
            lemma_small_mod((z1[k0] - z2[k0]) as nat, q as nat);
            assert(false);
        } else {
            vstd::arithmetic::div_mod::lemma_mod_add_multiples_vanish(z1[k0] - z2[k0], q);
            lemma_small_mod((z1[k0] - z2[k0] + q) as nat, q as nat);
            assert(false);
        }
    }
}

/// Absorbs one coefficient sequence into the running hash state.
fn mix_seq_exec(h: u64, et: &Encodedtext) -> (r: u64)
    ensures
        r == mix_seq(h as int, et.coeffs()),
{
    let len = et.get_degree();
    let mut state: u64 = h;
    let mut i: usize = 0;
    proof {
        assert(et.coeffs().subrange(0, len as int) =~= et.coeffs());
    }
    while i < len
        invariant
            i <= len,
            len == et.coeffs().len(),
            mix_seq(state as int, et.coeffs().subrange(i as int, len as int)) == mix_seq(
                h as int,
                et.coeffs(),
            ),
        decreases len - i,
    {
        let c = et.coeff_at(i);
        let ghost pre = et.coeffs().subrange(i as int, len as int);
        let vm: u128 = c % 0x1_0000_0000_0000_0000u128;
        let t: u128 = state as u128 * 6364136223846793005u128 + vm + 1442695040888963407u128;
        let folded: u64 = (t % 0x1_0000_0000_0000_0000u128) as u64;
        proof {
            lemma_mod_bound(t as int, 0x1_0000_0000_0000_0000);
            assert(folded as int == mix(state as int, et.coeffs()[i as int]));
            assert(pre[0] == et.coeffs()[i as int]);
            assert(pre.subrange(1, pre.len() as int) =~= et.coeffs().subrange(
                i as int + 1,
                len as int,
            ));
            assert(mix_seq(state as int, pre) == mix_seq(
                folded as int,
                et.coeffs().subrange(i as int + 1, len as int),
            ));
        }
        state = folded;
        i = i + 1;
    }
    proof {
        assert(et.coeffs().subrange(len as int, len as int) =~= Seq::<int>::empty());
    }
    state
}

/// Absorbs a batch of ciphertexts into the running hash state.
fn mix_cts_exec(h: u64, cs: &Vec<Ciphertext>) -> (r: u64)
    ensures
        r == mix_cts(h as int, cs@, cs@.len()),
{
    let mut state: u64 = h;
    let mut i: usize = 0;
    let len = cs.len();
    while i < len
        invariant
            i <= len,
            len == cs@.len(),
            state == mix_cts(h as int, cs@, i as nat),
        decreases len - i,
    {
        let s0 = mix_seq_exec(state, &cs[i].c0);
        let s1 = mix_seq_exec(s0, &cs[i].c1);
        let s2 = mix_seq_exec(s1, &cs[i].c2);
        proof {
            assert(s2 == mix_ct(state as int, cs@[i as int]));
        }
        state = s2;
        i = i + 1;
    }
    state
}

/// Derives the `sec` challenge bits from the transcript `(pk, c, a)`.
pub fn hash(
    a: &Vec<Ciphertext>,
    c: &Vec<Ciphertext>,
    pk: &crate::she::PublicKey,
    parameters: &Parameters,
) -> (r: Vec<bool>)
    requires
        parameters.wf(),
    ensures
        r@ == challenge_spec(pk, a@, c@, parameters.sec_spec()),
{
    let h0 = mix_seq_exec(0, &pk.a);
    let hk = mix_seq_exec(h0, &pk.b);
    let hc = mix_cts_exec(hk, c);
    let h = mix_cts_exec(hc, a);
    let sec = parameters.sec_usize();
    let mut bits: Vec<bool> = Vec::new();
    let mut state: u64 = h;
    let mut j: usize = 0;
    while j < sec
        invariant
            j <= sec,
            sec <= 0x10000,
            h == mix_cts(
                mix_cts(mix_seq(mix_seq(0, pk.a.coeffs()), pk.b.coeffs()), c@, c@.len()),
                a@,
                a@.len(),
            ),
            state as int == iter_mix(h as int, j as nat),
            bits@.len() == j,
            forall|k: int| 0 <= k < j ==> bits@[k] == challenge_bit(h as int, k),
        decreases sec - j,
    {
        let t: u128 = state as u128 * 6364136223846793005u128 + (j as u128)
            + 1442695040888963407u128;
        let m: u128 = t % 0x1_0000_0000_0000_0000u128;
        let bit: bool = (m / 0x1_0000_0000u128) % 2 == 1;
        proof {
            lemma_mod_bound(t as int, 0x1_0000_0000_0000_0000);
            assert((j as u128) as int % 0x1_0000_0000_0000_0000 == j as int);
            assert(m as int == mix(state as int, j as int));
            assert(m as int == iter_mix(h as int, (j + 1) as nat));
            assert(bit == challenge_bit(h as int, j as int));
        }
        state = m as u64;
        bits.push(bit);
        j = j + 1;
    }
    proof {
        assert(bits@ =~= challenge_spec(pk, a@, c@, parameters.sec_spec()));
    }
    bits
}

/// `sum_i a[i] * b[i]` over the first `i` entries.
pub open spec fn dot_ints(a: Seq<int>, b: Seq<int>, i: nat) -> int
    decreases i,
{
    if i == 0 {
        0int
    } else {
        dot_ints(a, b, (i - 1) as nat) + a[i - 1] * b[i - 1]
    }
}

/// Plain integer dot product of two equally long vectors of small entries.
pub fn dot_product(row: &Vec<i32>, x: &Vec<i32>) -> (r: i32)
    requires
        row@.len() == x@.len(),
        row@.len() <= 0x8000,
        forall|i: int| 0 <= i < row@.len() ==> -0x100 < #[trigger] row@[i] < 0x100,
        forall|i: int| 0 <= i < x@.len() ==> -0x100 < #[trigger] x@[i] < 0x100,
    ensures
        r as int == dot_ints(
            row@.map(|_i: int, v: i32| v as int),
            x@.map(|_i: int, v: i32| v as int),
            row@.len(),
        ),
{
    let ghost ra = row@.map(|_i: int, v: i32| v as int);
    let ghost xa = x@.map(|_i: int, v: i32| v as int);
    let len = row.len();
    let mut sum: i32 = 0;
    let mut i: usize = 0;
    while i < len
        invariant
            i <= len,
            len == ra.len() == xa.len() <= 0x8000,
            ra == row@.map(|_i: int, v: i32| v as int),
            xa == x@.map(|_i: int, v: i32| v as int),
            forall|k: int| 0 <= k < len ==> -0x100 < #[trigger] ra[k] < 0x100,
            forall|k: int| 0 <= k < len ==> -0x100 < #[trigger] xa[k] < 0x100,
            sum as int == dot_ints(ra, xa, i as nat),
            -0x8000 * 0xff * 0xff <= sum as int <= 0x8000 * 0xff * 0xff,
        decreases len - i,
    {
        proof {
            lemma_dot_ints_bound(ra, xa, i as nat, 0xff);
            lemma_dot_ints_bound(ra, xa, (i + 1) as nat, 0xff);
            assert(ra[i as int] * xa[i as int] <= 0xff * 0xff) by (nonlinear_arith)
                requires
                    -0x100 < ra[i as int] < 0x100,
                    -0x100 < xa[i as int] < 0x100,
            ;
            assert(ra[i as int] * xa[i as int] >= -(0xff * 0xff)) by (nonlinear_arith)
                requires
                    -0x100 < ra[i as int] < 0x100,
                    -0x100 < xa[i as int] < 0x100,
            ;
        }
        sum = sum + row[i] * x[i];
        i = i + 1;
    }
    sum
}

/// Each partial dot product of bounded entries is itself bounded.
proof fn lemma_dot_ints_bound(a: Seq<int>, b: Seq<int>, i: nat, m: int)
    requires
        0 <= m,
        i <= a.len(),
        a.len() == b.len(),
        forall|k: int| 0 <= k < a.len() ==> -m <= #[trigger] a[k] <= m,
        forall|k: int| 0 <= k < b.len() ==> -m <= #[trigger] b[k] <= m,
    ensures
        -(i * m * m) <= dot_ints(a, b, i) <= i * m * m,
    decreases i,
{
    if i > 0 {
        lemma_dot_ints_bound(a, b, (i - 1) as nat, m);
        assert(-(m * m) <= a[i - 1] * b[i - 1] <= m * m) by (nonlinear_arith)
            requires
                -m <= a[i - 1] <= m,
                -m <= b[i - 1] <= m,
                0 <= m,
        ;
        assert((i - 1) * m * m + m * m == i * m * m) by (nonlinear_arith);
    }
}

/// Linear combination of ring elements: `sum_i row[i] * x[i]` in R_q.
pub fn dot_product2(row: &Vec<i128>, x: &Vec<Encodedtext>) -> (r: Encodedtext)
    requires
        row@.len() == x@.len(),
        1 <= x@.len(),
        forall|k: int| 0 <= k < x@.len() ==> (#[trigger] x@[k]).wf(),
        forall|k: int| 0 <= k < x@.len() ==> (#[trigger] x@[k]).q_spec() == x@[0].q_spec(),
        forall|k: int|
            0 <= k < x@.len() ==> (#[trigger] x@[k]).coeffs().len() == x@[0].coeffs().len(),
    ensures
        r.wf(),
        r.q_spec() == x@[0].q_spec(),
        r.coeffs().len() == x@[0].coeffs().len(),
        r.coeffs() == dot_seq(
            row@.map(|_i: int, v: i128| v as int),
            x@.map(|_i: int, et: Encodedtext| et.coeffs()),
            x@[0].coeffs().len() as nat,
            x@[0].q_spec(),
            row@.len(),
        ),
{
    let ghost ra = row@.map(|_i: int, v: i128| v as int);
    let ghost xs = x@.map(|_i: int, et: Encodedtext| et.coeffs());
    let deg = x[0].get_degree();
    let q = x[0].get_q();
    let ghost gq = x@[0].q_spec();
    let mut sum = Encodedtext::zero(deg, q);
    let len = row.len();
    let mut i: usize = 0;
    while i < len
        invariant
            i <= len,
            len == ra.len() == xs.len(),
            ra == row@.map(|_i: int, v: i128| v as int),
            xs == x@.map(|_i: int, et: Encodedtext| et.coeffs()),
            deg == x@[0].coeffs().len(),
            gq == q as int,
            gq == x@[0].q_spec(),
            forall|k: int| 0 <= k < len ==> (#[trigger] x@[k]).wf(),
            forall|k: int| 0 <= k < len ==> (#[trigger] x@[k]).q_spec() == gq,
            forall|k: int| 0 <= k < len ==> (#[trigger] x@[k]).coeffs().len() == deg,
            sum.wf(),
            sum.q_spec() == gq,
            sum.coeffs().len() == deg,
            sum.coeffs() == dot_seq(ra, xs, deg as nat, gq, i as nat),
        decreases len - i,
    {
        let term = x[i].mul_scalar(row[i]);
        let next = sum.add(&term);
        proof {
            assert(pad_seq(sum.coeffs(), deg as nat) =~= sum.coeffs());
            assert(pad_seq(term.coeffs(), deg as nat) =~= term.coeffs());
            assert(xs[i as int] == x@[i as int].coeffs());
        }
        sum = next;
        i = i + 1;
    }
    sum
}

/// Linear combination of ciphertexts: `sum_i row[i] * c[i]`, componentwise.
pub fn dot_product3(row: &Vec<i128>, c: &Vec<Ciphertext>, parameters: &Parameters) -> (r:
    Ciphertext)
    requires
        parameters.wf(),
        row@.len() == c@.len(),
        forall|k: int|
            0 <= k < c@.len() ==> (#[trigger] c@[k]).wf() && c@[k].q_spec()
                == parameters.q_spec() && c@[k].c0.coeffs().len() == parameters.n_spec(),
    ensures
        r.wf(),
        r.q_spec() == parameters.q_spec(),
        r.c0.coeffs().len() == parameters.n_spec(),
        r.c0.coeffs() == dot_seq(
            row@.map(|_i: int, v: i128| v as int),
            c@.map(|_i: int, ct: Ciphertext| ct.c0.coeffs()),
            parameters.n_spec() as nat,
            parameters.q_spec(),
            row@.len(),
        ),
        r.c1.coeffs() == dot_seq(
            row@.map(|_i: int, v: i128| v as int),
            c@.map(|_i: int, ct: Ciphertext| ct.c1.coeffs()),
            parameters.n_spec() as nat,
            parameters.q_spec(),
            row@.len(),
        ),
        r.c2.coeffs() == dot_seq(
            row@.map(|_i: int, v: i128| v as int),
            c@.map(|_i: int, ct: Ciphertext| ct.c2.coeffs()),
            parameters.n_spec() as nat,
            parameters.q_spec(),
            row@.len(),
        ),
{
    let ghost ra = row@.map(|_i: int, v: i128| v as int);
    let ghost c0s = c@.map(|_i: int, ct: Ciphertext| ct.c0.coeffs());
    let ghost c1s = c@.map(|_i: int, ct: Ciphertext| ct.c1.coeffs());
    let ghost c2s = c@.map(|_i: int, ct: Ciphertext| ct.c2.coeffs());
    let n = parameters.n_usize();
    let q = parameters.q_u128();
    let ghost gq = parameters.q_spec();
    let z0 = Encodedtext::zero(n, q);
    let z1 = Encodedtext::zero(n, q);
    let z2 = Encodedtext::zero(n, q);
    let mut sum = Ciphertext::new(z0, z1, z2);
    let len = row.len();
    let mut i: usize = 0;
    while i < len
        invariant
            i <= len,
            len == ra.len() == c0s.len(),
            c1s.len() == len,
            c2s.len() == len,
            ra == row@.map(|_i: int, v: i128| v as int),
            c0s == c@.map(|_i: int, ct: Ciphertext| ct.c0.coeffs()),
            c1s == c@.map(|_i: int, ct: Ciphertext| ct.c1.coeffs()),
            c2s == c@.map(|_i: int, ct: Ciphertext| ct.c2.coeffs()),
            n == parameters.n_spec(),
            gq == q as int,
            gq == parameters.q_spec(),
            forall|k: int|
                0 <= k < len ==> (#[trigger] c@[k]).wf() && c@[k].q_spec() == gq
                    && c@[k].c0.coeffs().len() == n,
            sum.wf(),
            sum.q_spec() == gq,
            sum.c0.coeffs().len() == n,
            sum.c0.coeffs() == dot_seq(ra, c0s, n as nat, gq, i as nat),
            sum.c1.coeffs() == dot_seq(ra, c1s, n as nat, gq, i as nat),
            sum.c2.coeffs() == dot_seq(ra, c2s, n as nat, gq, i as nat),
        decreases len - i,
    {
        let term = c[i].mul_scalar(row[i]);
        let next = sum.add(&term);
        proof {
            assert(pad_seq(sum.c0.coeffs(), n as nat) =~= sum.c0.coeffs());
            assert(pad_seq(sum.c1.coeffs(), n as nat) =~= sum.c1.coeffs());
            assert(pad_seq(sum.c2.coeffs(), n as nat) =~= sum.c2.coeffs());
            assert(pad_seq(term.c0.coeffs(), n as nat) =~= term.c0.coeffs());
            assert(pad_seq(term.c1.coeffs(), n as nat) =~= term.c1.coeffs());
            assert(pad_seq(term.c2.coeffs(), n as nat) =~= term.c2.coeffs());
            assert(c0s[i as int] == c@[i as int].c0.coeffs());
            assert(c1s[i as int] == c@[i as int].c1.coeffs());
            assert(c2s[i as int] == c@[i as int].c2.coeffs());
        }
        sum = next;
        i = i + 1;
    }
    sum
}

/// Samples one ring element whose balanced coefficients all lie strictly
/// below `bound` in magnitude.
fn sample_balanced(len: usize, bound: u128, q: u128, rng: &mut rand::rngs::StdRng) -> (r:
    Encodedtext)
    requires
        1 <= bound,
        4 * bound <= q,
        q <= modulus_bound(),
    ensures
        r.wf(),
        r.q_spec() == q,
        r.coeffs().len() == len,
        forall|k: int|
            0 <= k < r.coeffs().len() ==> abs_int(bal(#[trigger] r.coeffs()[k], q as int)) < bound,
{
    let bm1: u128 = bound - 1;
    let mut vals: Vec<u128> = Vec::new();
    let mut i: usize = 0;
    while i < len
        invariant
            i <= len,
            bm1 == bound - 1,
            1 <= bound,
            4 * bound <= q,
            q <= modulus_bound(),
            vals@.len() == i,
            forall|k: int| 0 <= k < i ==> vals@[k] < q,
            forall|k: int|
                0 <= k < i ==> abs_int(bal(#[trigger] vals@[k] as int, q as int)) < bound,
        decreases len - i,
    {
        let t = gen_below(rng, 2 * bound - 1);
        let v: u128 = if t >= bm1 {
            t - bm1
        } else {
            q - (bm1 - t)
        };
        proof {
            if t >= bm1 {
                assert(2 * (v as int) <= q);
                assert(bal(v as int, q as int) == v as int);
            } else {
                let d = bm1 - t;
                assert(1 <= d <= bm1);
                assert(2 * (v as int) > q);
                assert(bal(v as int, q as int) == v as int - q as int);
                assert(abs_int(bal(v as int, q as int)) == d);
            }
        }
        vals.push(v);
        i = i + 1;
    }
    let r = Encodedtext::new(vals, q);
    r
}

/// The prover's masking encodings: `v` ring elements of degree `n` with
/// balanced norm below `n * tau * sec`.
pub fn generate_u(parameters: &Parameters, rng: &mut rand::rngs::StdRng) -> (r: Vec<Encodedtext>)
    requires
        parameters.wf(),
    ensures
        r@.len() == parameters.v_spec(),
        forall|i: int|
            0 <= i < r@.len() ==> (#[trigger] r@[i]).wf() && r@[i].q_spec()
                == parameters.q_spec() && r@[i].coeffs().len() == parameters.n_spec(),
        forall|i: int, k: int|
            0 <= i < r@.len() && 0 <= k < parameters.n_spec() ==> abs_int(
                bal(#[trigger] r@[i].coeffs()[k], parameters.q_spec()),
            ) < parameters.n_spec() * parameters.tau_spec() * parameters.sec_spec(),
{
    let n = parameters.n_usize();
    let v = parameters.v_usize();
    let q = parameters.q_u128();
    let na: u128 = parameters.n as u128;
    let ta: u128 = parameters.tau as u128;
    let sa: u128 = parameters.sec as u128;
    proof {
        assert(na * ta <= 0x10000000000u128) by (nonlinear_arith)
            requires
                na <= 0x100000,
                ta <= 0x100000,
        ;
    }
    let nt: u128 = na * ta;
    proof {
        assert(nt * sa <= 0x100000000000000u128) by (nonlinear_arith)
            requires
                nt <= 0x10000000000u128,
                sa <= 0x10000,
        ;
    }
    let bound: u128 = nt * sa;
    proof {
        assert(bound as int == parameters.n_spec() * parameters.tau_spec()
            * parameters.sec_spec()) by (nonlinear_arith)
            requires
                bound == nt * sa,
                nt == na * ta,
                na == parameters.n_spec(),
                ta == parameters.tau_spec(),
                sa == parameters.sec_spec(),
        ;
        assert(1 <= bound) by (nonlinear_arith)
            requires
                bound == nt * sa,
                nt == na * ta,
                na >= 1,
                ta >= 1,
                sa >= 1,
        ;
        assert(4 * (bound as int) <= q as int) by (nonlinear_arith)
            requires
                parameters.wf(),
                bound as int == parameters.n_spec() * parameters.tau_spec()
                    * parameters.sec_spec(),
                q as int == parameters.q_spec(),
                256 * parameters.n_spec() * parameters.tau_spec() * parameters.sec_spec()
                    * parameters.sec_spec() < parameters.q_spec(),
                1 <= parameters.sec_spec(),
                1 <= parameters.n_spec(),
                1 <= parameters.tau_spec(),
        ;
    }
    let mut out: Vec<Encodedtext> = Vec::new();
    let mut i: usize = 0;
    while i < v
        invariant
            i <= v,
            v == parameters.v_spec(),
            n == parameters.n_spec(),
            q == parameters.q_spec(),
            1 <= bound,
            4 * bound <= q,
            q <= modulus_bound(),
            bound as int == parameters.n_spec() * parameters.tau_spec() * parameters.sec_spec(),
            out@.len() == i,
            forall|a: int|
                0 <= a < i ==> (#[trigger] out@[a]).wf() && out@[a].q_spec() == q as int
                    && out@[a].coeffs().len() == n,
            forall|a: int, k: int|
                0 <= a < i && 0 <= k < n ==> abs_int(bal(#[trigger] out@[a].coeffs()[k], q as int))
                    < bound,
        decreases v - i,
    {
        let e = sample_balanced(n, bound, q, rng);
        out.push(e);
        i = i + 1;
    }
    out
}

/// The prover's masking randomness: `v` ring elements of degree `d` with
/// balanced norm below `d * rho * sec`.
pub fn generate_s(parameters: &Parameters, rng: &mut rand::rngs::StdRng) -> (r: Vec<Encodedtext>)
    requires
        parameters.wf(),
    ensures
        r@.len() == parameters.v_spec(),
        forall|i: int|
            0 <= i < r@.len() ==> (#[trigger] r@[i]).wf() && r@[i].q_spec()
                == parameters.q_spec() && r@[i].coeffs().len() == parameters.d_spec(),
        forall|i: int, k: int|
            0 <= i < r@.len() && 0 <= k < parameters.d_spec() ==> abs_int(
                bal(#[trigger] r@[i].coeffs()[k], parameters.q_spec()),
            ) < parameters.d_spec() * parameters.rho_spec() * parameters.sec_spec(),
{
    let d = parameters.d_usize();
    let v = parameters.v_usize();
    let q = parameters.q_u128();
    let da: u128 = parameters.d as u128;
    let ra: u128 = parameters.rho as u128;
    let sa: u128 = parameters.sec as u128;
    proof {
        assert(da * ra <= 0x40000000000u128) by (nonlinear_arith)
            requires
                da <= 0x300000,
                ra <= 0x100000,
        ;
    }
    let dr: u128 = da * ra;
    proof {
        assert(dr * sa <= 0x400000000000000u128) by (nonlinear_arith)
            requires
                dr <= 0x40000000000u128,
                sa <= 0x10000,
        ;
    }
    let bound: u128 = dr * sa;
    proof {
        assert(bound as int == parameters.d_spec() * parameters.rho_spec()
            * parameters.sec_spec()) by (nonlinear_arith)
            requires
                bound == dr * sa,
                dr == da * ra,
                da == parameters.d_spec(),
                ra == parameters.rho_spec(),
                sa == parameters.sec_spec(),
        ;
        assert(1 <= bound) by (nonlinear_arith)
            requires
                bound == dr * sa,
                dr == da * ra,
                da >= 1,
                ra >= 1,
                sa >= 1,
        ;
        assert(4 * (bound as int) <= q as int) by (nonlinear_arith)
            requires
                bound as int == parameters.d_spec() * parameters.rho_spec()
                    * parameters.sec_spec(),
                q as int == parameters.q_spec(),
                256 * parameters.d_spec() * parameters.rho_spec() * parameters.sec_spec()
                    * parameters.sec_spec() < parameters.q_spec(),
                1 <= parameters.sec_spec(),
                1 <= parameters.d_spec(),
                1 <= parameters.rho_spec(),
        ;
    }
    let mut out: Vec<Encodedtext> = Vec::new();
    let mut i: usize = 0;
    while i < v
        invariant
            i <= v,
            v == parameters.v_spec(),
            d == parameters.d_spec(),
            q == parameters.q_spec(),
            1 <= bound,
            4 * bound <= q,
            q <= modulus_bound(),
            bound as int == parameters.d_spec() * parameters.rho_spec() * parameters.sec_spec(),
            out@.len() == i,
            forall|a: int|
                0 <= a < i ==> (#[trigger] out@[a]).wf() && out@[a].q_spec() == q as int
                    && out@[a].coeffs().len() == d,
            forall|a: int, k: int|
                0 <= a < i && 0 <= k < d ==> abs_int(bal(#[trigger] out@[a].coeffs()[k], q as int))
                    < bound,
        decreases v - i,
    {
        let e = sample_balanced(d, bound, q, rng);
        out.push(e);
        i = i + 1;
    }
    out
}

/// Builds the `v x sec` challenge matrix from the challenge bits.
#[allow(non_snake_case)]
pub fn generate_M_e(e: &Vec<bool>, parameters: &Parameters) -> (r: Vec<Vec<i128>>)
    requires
        parameters.wf(),
        e@.len() == parameters.sec_spec(),
    ensures
        r@.len() == parameters.v_spec(),
        forall|i: int| 0 <= i < r@.len() ==> (#[trigger] r@[i])@.len() == parameters.sec_spec(),
        forall|i: int, k: int|
            0 <= i < r@.len() && 0 <= k < parameters.sec_spec() ==> (#[trigger] r@[i]@[k]) as int
                == m_e_entry(e@, i, k, parameters.sec_spec()),
{
    let v = parameters.v_usize();
    let sec = parameters.sec_usize();
    let mut rows: Vec<Vec<i128>> = Vec::new();
    let mut i: usize = 0;
    while i < v
        invariant
            i <= v,
            v == parameters.v_spec(),
            sec == parameters.sec_spec(),
            e@.len() == sec,
            rows@.len() == i,
            forall|a: int| 0 <= a < i ==> (#[trigger] rows@[a])@.len() == sec,
            forall|a: int, k: int|
                0 <= a < i && 0 <= k < sec ==> (#[trigger] rows@[a]@[k]) as int == m_e_entry(
                    e@,
                    a,
                    k,
                    sec as int,
                ),
        decreases v - i,
    {
        let mut row: Vec<i128> = Vec::new();
        let mut k: usize = 0;
        while k < sec
            invariant
                k <= sec,
                i < v,
                sec == parameters.sec_spec(),
                e@.len() == sec,
                row@.len() == k,
                forall|t: int|
                    0 <= t < k ==> (#[trigger] row@[t]) as int == m_e_entry(
                        e@,
                        i as int,
                        t,
                        sec as int,
                    ),
            decreases sec - k,
        {
            let entry: i128 = if i >= k && i - k < sec {
                if e[i - k] {
                    1
                } else {
                    0
                }
            } else {
                0
            };
            row.push(entry);
            k = k + 1;
        }
        rows.push(row);
        i = i + 1;
    }
    rows
}

/// The honest prover: samples maskings, commits to their encryptions,
/// derives the challenge from the transcript, and answers with the masked
/// witness combinations.
pub fn prove(
    parameters: &Parameters,
    witness: &Witness,
    instance: &Instance,
    rng: &mut rand::rngs::StdRng,
) -> (pf: Proof)
    requires
        parameters.wf(),
        witness.wf(parameters),
        instance.wf(parameters),
    ensures
        proof_shaped(&pf, parameters),
        exists|ys: Seq<Encodedtext>, ss: Seq<Encodedtext>|
            #[trigger] masking_bounds(ys, ss, parameters) && honest_transcript(
                &pf,
                ys,
                ss,
                witness,
                instance,
                parameters,
            ),
{
    let ghost q = parameters.q_spec();
    let ghost n = parameters.n_spec();
    let ghost d = parameters.d_spec();
    let ghost sec = parameters.sec_spec();
    let n_e = parameters.n_usize();
    let p_e = parameters.p_u128();
    let q_e = parameters.q_u128();
    let v = parameters.v_usize();
    // step 1: maskings
    let y = generate_u(parameters, rng);
    let s = generate_s(parameters, rng);
    // step 2: commitments a_i = Enc(y_i; s_i)
    let mut a: Vec<Ciphertext> = Vec::new();
    let mut i: usize = 0;
    while i < v
        invariant
            i <= v,
            v == parameters.v_spec(),
            parameters.wf(),
            instance.wf(parameters),
            n_e == parameters.n_spec(),
            p_e == parameters.p_spec(),
            q_e == parameters.q_spec(),
            y@.len() == v,
            s@.len() == v,
            forall|k: int|
                0 <= k < v ==> (#[trigger] y@[k]).wf() && y@[k].q_spec() == parameters.q_spec()
                    && y@[k].coeffs().len() == parameters.n_spec(),
            forall|k: int|
                0 <= k < v ==> (#[trigger] s@[k]).wf() && s@[k].q_spec() == parameters.q_spec()
                    && s@[k].coeffs().len() == parameters.d_spec(),
            a@.len() == i,
            forall|k: int|
                0 <= k < i ==> (#[trigger] a@[k]).wf() && a@[k].q_spec() == parameters.q_spec()
                    && a@[k].c0.coeffs().len() == parameters.n_spec(),
            forall|k: int|
                0 <= k < i ==> (#[trigger] a@[k]).c0.coeffs()
                    == crate::ciphertext::enc_c0_spec(
                    y@[k].coeffs(),
                    s@[k].coeffs().subrange(0, parameters.n_spec()),
                    s@[k].coeffs().subrange(parameters.n_spec(), 2 * parameters.n_spec()),
                    instance.pk.b.coeffs(),
                    parameters.p_spec(),
                    parameters.q_spec(),
                ) && a@[k].c1.coeffs() == crate::ciphertext::enc_c1_spec(
                    s@[k].coeffs().subrange(0, parameters.n_spec()),
                    s@[k].coeffs().subrange(2 * parameters.n_spec(), 3 * parameters.n_spec()),
                    instance.pk.a.coeffs(),
                    parameters.p_spec(),
                    parameters.q_spec(),
                ) && a@[k].c2.coeffs() == zero_seq(parameters.n_spec() as nat),
        decreases v - i,
    {
        let ai = Ciphertext::encrypt_core(&y[i], &instance.pk, &s[i], n_e, p_e, q_e);
        a.push(ai);
        i = i + 1;
    }
    // steps 3-4: challenge and its matrix
    let e = hash(&a, &instance.c, &instance.pk, parameters);
    let m_e = generate_M_e(&e, parameters);
    // step 5: responses
    let ghost ch = challenge_spec(&instance.pk, a@, instance.c@, sec);
    let ghost xs = witness.x@.map(|_i: int, et: Encodedtext| et.coeffs());
    let ghost rs = witness.r@.map(|_i: int, et: Encodedtext| et.coeffs());
    let mut z: Vec<Encodedtext> = Vec::new();
    let mut iz: usize = 0;
    while iz < v
        invariant
            iz <= v,
            v == parameters.v_spec(),
            parameters.wf(),
            witness.wf(parameters),
            y@.len() == v,
            ch == challenge_spec(&instance.pk, a@, instance.c@, parameters.sec_spec()),
            xs == witness.x@.map(|_i: int, et: Encodedtext| et.coeffs()),
            e@.len() == parameters.sec_spec(),
            e@ == ch,
            m_e@.len() == v,
            forall|k: int| 0 <= k < v ==> (#[trigger] m_e@[k])@.len() == parameters.sec_spec(),
            forall|k: int, t: int|
                0 <= k < v && 0 <= t < parameters.sec_spec() ==> (#[trigger] m_e@[k]@[t]) as int
                    == m_e_entry(ch, k, t, parameters.sec_spec()),
            forall|k: int|
                0 <= k < v ==> (#[trigger] y@[k]).wf() && y@[k].q_spec() == parameters.q_spec()
                    && y@[k].coeffs().len() == parameters.n_spec(),
            z@.len() == iz,
            forall|k: int|
                0 <= k < iz ==> (#[trigger] z@[k]).wf() && z@[k].q_spec() == parameters.q_spec()
                    && z@[k].coeffs().len() == parameters.n_spec(),
            forall|k: int|
                0 <= k < iz ==> (#[trigger] z@[k]).coeffs() == padd(
                    y@[k].coeffs(),
                    dot_seq(
                        m_row(ch, k, parameters.sec_spec()),
                        xs,
                        parameters.n_spec() as nat,
                        parameters.q_spec(),
                        parameters.sec_spec() as nat,
                    ),
                    parameters.q_spec(),
                ),
        decreases v - iz,
    {
        let combo = dot_product2(&m_e[iz], &witness.x);
        let zi = y[iz].add(&combo);
        proof {
            assert(m_e@[iz as int]@.map(|_i: int, vv: i128| vv as int) =~= m_row(
                ch,
                iz as int,
                parameters.sec_spec(),
            ));
            assert(witness.x@[0].coeffs().len() == parameters.n_spec());
            assert(witness.x@[0].q_spec() == parameters.q_spec());
            assert(pad_seq(y@[iz as int].coeffs(), parameters.n_spec() as nat) =~= y@[
                iz as int].coeffs());
            assert(pad_seq(combo.coeffs(), parameters.n_spec() as nat) =~= combo.coeffs());
        }
        z.push(zi);
        iz = iz + 1;
    }
    let mut t: Vec<Encodedtext> = Vec::new();
    let mut it: usize = 0;
    while it < v
        invariant
            it <= v,
            v == parameters.v_spec(),
            parameters.wf(),
            witness.wf(parameters),
            s@.len() == v,
            ch == challenge_spec(&instance.pk, a@, instance.c@, parameters.sec_spec()),
            rs == witness.r@.map(|_i: int, et: Encodedtext| et.coeffs()),
            e@.len() == parameters.sec_spec(),
            e@ == ch,
            m_e@.len() == v,
            forall|k: int| 0 <= k < v ==> (#[trigger] m_e@[k])@.len() == parameters.sec_spec(),
            forall|k: int, tt: int|
                0 <= k < v && 0 <= tt < parameters.sec_spec() ==> (#[trigger] m_e@[k]@[tt]) as int
                    == m_e_entry(ch, k, tt, parameters.sec_spec()),
            forall|k: int|
                0 <= k < v ==> (#[trigger] s@[k]).wf() && s@[k].q_spec() == parameters.q_spec()
                    && s@[k].coeffs().len() == parameters.d_spec(),
            t@.len() == it,
            forall|k: int|
                0 <= k < it ==> (#[trigger] t@[k]).wf() && t@[k].q_spec() == parameters.q_spec()
                    && t@[k].coeffs().len() == parameters.d_spec(),
            forall|k: int|
                0 <= k < it ==> (#[trigger] t@[k]).coeffs() == padd(
                    s@[k].coeffs(),
                    dot_seq(
                        m_row(ch, k, parameters.sec_spec()),
                        rs,
                        parameters.d_spec() as nat,
                        parameters.q_spec(),
                        parameters.sec_spec() as nat,
                    ),
                    parameters.q_spec(),
                ),
        decreases v - it,
    {
        let combo = dot_product2(&m_e[it], &witness.r);
        let ti = s[it].add(&combo);
        proof {
            assert(m_e@[it as int]@.map(|_i: int, vv: i128| vv as int) =~= m_row(
                ch,
                it as int,
                parameters.sec_spec(),
            ));
            assert(witness.r@[0].coeffs().len() == parameters.d_spec());
            assert(witness.r@[0].q_spec() == parameters.q_spec());
            assert(pad_seq(s@[it as int].coeffs(), parameters.d_spec() as nat) =~= s@[
                it as int].coeffs());
            assert(pad_seq(combo.coeffs(), parameters.d_spec() as nat) =~= combo.coeffs());
        }
        t.push(ti);
        it = it + 1;
    }
    let pf = Proof { a, z, t };
    proof {
        let ys = y@;
        let ss = s@;
        assert(masking_bounds(ys, ss, parameters));
        assert(honest_transcript(&pf, ys, ss, witness, instance, parameters));
    }
    pf
}

/// A placeholder proof of the right shape: random commitments and zero
/// responses.  It does not verify against a real statement.
pub fn dummy_prove(parameters: &Parameters, rng: &mut rand::rngs::StdRng) -> (pf: Proof)
    requires
        parameters.wf(),
    ensures
        proof_shaped(&pf, parameters),
{
    let v = parameters.v_usize();
    let n = parameters.n_usize();
    let d = parameters.d_usize();
    let q = parameters.q_u128();
    let mut a: Vec<Ciphertext> = Vec::new();
    let mut z: Vec<Encodedtext> = Vec::new();
    let mut t: Vec<Encodedtext> = Vec::new();
    let mut i: usize = 0;
    while i < v
        invariant
            i <= v,
            2 <= q <= modulus_bound(),
            q == parameters.q_spec(),
            n == parameters.n_spec(),
            d == parameters.d_spec(),
            a@.len() == i,
            z@.len() == i,
            t@.len() == i,
            forall|k: int|
                0 <= k < i ==> (#[trigger] a@[k]).wf() && a@[k].q_spec() == q as int
                    && a@[k].c0.coeffs().len() == n,
            forall|k: int|
                0 <= k < i ==> (#[trigger] z@[k]).wf() && z@[k].q_spec() == q as int
                    && z@[k].coeffs().len() == n,
            forall|k: int|
                0 <= k < i ==> (#[trigger] t@[k]).wf() && t@[k].q_spec() == q as int
                    && t@[k].coeffs().len() == d,
        decreases v - i,
    {
        a.push(Ciphertext::rand(n, q, rng));
        z.push(Encodedtext::zero(n, q));
        t.push(Encodedtext::zero(d, q));
        i = i + 1;
    }
    Proof { a, z, t }
}

/// Checks the shape of a proof; on failure names the first bad row.
fn check_shape(proof: &Proof, parameters: &Parameters) -> (r: Option<usize>)
    requires
        parameters.wf(),
        forall|i: int|
            0 <= i < proof.a@.len() ==> (#[trigger] proof.a@[i]).wf() && proof.a@[i].q_spec()
                == parameters.q_spec(),
        forall|i: int|
            0 <= i < proof.z@.len() ==> (#[trigger] proof.z@[i]).wf() && proof.z@[i].q_spec()
                == parameters.q_spec(),
        forall|i: int|
            0 <= i < proof.t@.len() ==> (#[trigger] proof.t@[i]).wf() && proof.t@[i].q_spec()
                == parameters.q_spec(),
    ensures
        match r {
            None => proof_shaped(proof, parameters),
            Some(_) => !proof_shaped(proof, parameters),
        },
{
    let v = parameters.v_usize();
    let n = parameters.n_usize();
    let d = parameters.d_usize();
    if proof.a.len() != v || proof.z.len() != v || proof.t.len() != v {
        return Some(0);
    }
    let mut si: usize = 0;
    while si < v
        invariant
            si <= v,
            v == parameters.v_spec(),
            n == parameters.n_spec(),
            d == parameters.d_spec(),
            parameters.wf(),
            proof.a@.len() == v,
            proof.z@.len() == v,
            proof.t@.len() == v,
            forall|i: int| 0 <= i < si ==> (#[trigger] proof.a@[i]).c0.coeffs().len() == n,
            forall|i: int| 0 <= i < si ==> (#[trigger] proof.z@[i]).coeffs().len() == n,
            forall|i: int| 0 <= i < si ==> (#[trigger] proof.t@[i]).coeffs().len() == d,
        decreases v - si,
    {
        if proof.a[si].get_degree() != n {
            proof {
                assert(proof.a@[si as int].c0.coeffs().len() != parameters.n_spec());
            }
            return Some(si);
        }
        if proof.z[si].get_degree() != n {
            proof {
                assert(proof.z@[si as int].coeffs().len() != parameters.n_spec());
            }
            return Some(si);
        }
        if proof.t[si].get_degree() != d {
            proof {
                assert(proof.t@[si as int].coeffs().len() != parameters.d_spec());
            }
            return Some(si);
        }
        si = si + 1;
    }
    None
}

/// Checks one verification row: `Enc(z_i; T_i) = a_i + sum_k M[i][k] * c_k`.
fn check_row(
    proof: &Proof,
    parameters: &Parameters,
    instance: &Instance,
    row: &Vec<i128>,
    i: usize,
    Ghost(ch): Ghost<Seq<bool>>,
) -> (r: bool)
    requires
        parameters.wf(),
        instance.wf(parameters),
        proof_shaped(proof, parameters),
        i < parameters.v_spec(),
        row@.len() == parameters.sec_spec(),
        forall|t: int|
            0 <= t < row@.len() ==> (#[trigger] row@[t]) as int == m_e_entry(
                ch,
                i as int,
                t,
                parameters.sec_spec(),
            ),
    ensures
        r == eq_holds_at(proof, parameters, instance, ch, i as int),
{
    let n = parameters.n_usize();
    let p_e = parameters.p_u128();
    let q_e = parameters.q_u128();
    let d_i = Ciphertext::encrypt_core(&proof.z[i], &instance.pk, &proof.t[i], n, p_e, q_e);
    let combo = dot_product3(row, &instance.c, parameters);
    let rhs = proof.a[i].add(&combo);
    proof {
        assert(row@.map(|_i: int, vv: i128| vv as int) =~= m_row(
            ch,
            i as int,
            parameters.sec_spec(),
        ));
        assert(pad_seq(proof.a@[i as int].c0.coeffs(), n as nat) =~= proof.a@[
        i as int].c0.coeffs());
        assert(pad_seq(proof.a@[i as int].c1.coeffs(), n as nat) =~= proof.a@[
        i as int].c1.coeffs());
        assert(pad_seq(proof.a@[i as int].c2.coeffs(), n as nat) =~= proof.a@[
        i as int].c2.coeffs());
        assert(pad_seq(combo.c0.coeffs(), n as nat) =~= combo.c0.coeffs());
        assert(pad_seq(combo.c1.coeffs(), n as nat) =~= combo.c1.coeffs());
        assert(pad_seq(combo.c2.coeffs(), n as nat) =~= combo.c2.coeffs());
    }
    let ok0 = d_i.c0.equals(&rhs.c0);
    let ok1 = d_i.c1.equals(&rhs.c1);
    let ok2 = d_i.c2.equals(&rhs.c2);
    proof {
        reveal(eq_holds_at);
    }
    ok0 && ok1 && ok2
}

/// The largest balanced norm in a list of ring elements, with the index
/// of a row attaining it.
fn max_norm_exec(xs: &Vec<Encodedtext>, q: u128) -> (r: (u128, usize))
    requires
        2 <= q <= modulus_bound(),
        forall|i: int|
            0 <= i < xs@.len() ==> (#[trigger] xs@[i]).wf() && xs@[i].q_spec() == q as int,
    ensures
        r.0 as int == max_norm(xs@, q as int, xs@.len()),
{
    let len = xs.len();
    let mut best: u128 = 0;
    let mut best_i: usize = 0;
    let mut i: usize = 0;
    while i < len
        invariant
            i <= len,
            len == xs@.len(),
            2 <= q <= modulus_bound(),
            forall|k: int|
                0 <= k < len ==> (#[trigger] xs@[k]).wf() && xs@[k].q_spec() == q as int,
            best as int == max_norm(xs@, q as int, i as nat),
        decreases len - i,
    {
        let c = xs[i].norm();
        if c > best {
            best = c;
            best_i = i;
        }
        i = i + 1;
    }
    (best, best_i)
}

/// The verifier's bound on the response norms: `128 * n * tau * sec^2`.
fn norm_bound_z(parameters: &Parameters) -> (r: u128)
    requires
        parameters.wf(),
    ensures
        r as int == 128 * parameters.n_spec() * parameters.tau_spec() * parameters.sec_spec()
            * parameters.sec_spec(),
{
    let na: u128 = parameters.n as u128;
    let ta: u128 = parameters.tau as u128;
    let sa: u128 = parameters.sec as u128;
    proof {
        assert((128u128 * na) * ta <= 0x800000000000u128 && ((128u128 * na) * ta) * sa
            <= 0x8000000000000000u128 && ((128u128 * na) * ta * sa) * sa
            <= 0x80000000000000000000u128 && ((128 * (na as int)) * ta * sa) * sa == 128 * (
        na as int) * (ta as int) * (sa as int) * (sa as int)) by (nonlinear_arith)
            requires
                na <= 0x100000,
                ta <= 0x100000,
                sa <= 0x10000,
        ;
    }
    128u128 * na * ta * sa * sa
}

/// The verifier's bound on the masked-randomness norms: `128 * d * rho * sec^2`.
fn norm_bound_t(parameters: &Parameters) -> (r: u128)
    requires
        parameters.wf(),
    ensures
        r as int == 128 * parameters.d_spec() * parameters.rho_spec() * parameters.sec_spec()
            * parameters.sec_spec(),
{
    let da: u128 = parameters.d as u128;
    let ra: u128 = parameters.rho as u128;
    let sa: u128 = parameters.sec as u128;
    proof {
        assert((128u128 * da) * ra <= 0x2000000000000u128 && ((128u128 * da) * ra) * sa
            <= 0x20000000000000000u128 && ((128u128 * da) * ra * sa) * sa
            <= 0x200000000000000000000u128 && ((128 * (da as int)) * ra * sa) * sa == 128 * (
        da as int) * (ra as int) * (sa as int) * (sa as int)) by (nonlinear_arith)
            requires
                da <= 0x300000,
                ra <= 0x100000,
                sa <= 0x10000,
        ;
    }
    128u128 * da * ra * sa * sa
}

/// The verifier: recomputes the challenge, checks every row equation, and
/// checks both norm bounds.  `Ok` exactly when all of them hold.
#[verifier::rlimit(100)]
pub fn verify(proof: &Proof, parameters: &Parameters, instance: &Instance) -> (r: Result<
    (),
    MpcError,
>)
    requires
        parameters.wf(),
        instance.wf(parameters),
        forall|i: int|
            0 <= i < proof.a@.len() ==> (#[trigger] proof.a@[i]).wf() && proof.a@[i].q_spec()
                == parameters.q_spec(),
        forall|i: int|
            0 <= i < proof.z@.len() ==> (#[trigger] proof.z@[i]).wf() && proof.z@[i].q_spec()
                == parameters.q_spec(),
        forall|i: int|
            0 <= i < proof.t@.len() ==> (#[trigger] proof.t@[i]).wf() && proof.t@[i].q_spec()
                == parameters.q_spec(),
    ensures
        (r is Ok) <==> verify_ok(proof, parameters, instance),
        match r {
            Ok(()) => true,
            Err(e) => match e {
                MpcError::ProofMismatch { index } => !(proof_shaped(proof, parameters)
                    && (forall|i: int|
                    0 <= i < parameters.v_spec() ==> eq_holds_at(
                        proof,
                        parameters,
                        instance,
                        challenge_spec(&instance.pk, proof.a@, instance.c@, parameters.sec_spec()),
                        i,
                    ))),
                MpcError::NormBound { kind, index } => proof_shaped(proof, parameters) && (
                kind == (NormKind::Z) ==> max_norm(proof.z@, parameters.q_spec(), proof.z@.len())
                    >= 128 * parameters.n_spec() * parameters.tau_spec() * parameters.sec_spec()
                    * parameters.sec_spec()) && (kind == (NormKind::T) ==> max_norm(
                    proof.t@,
                    parameters.q_spec(),
                    proof.t@.len(),
                ) >= 128 * parameters.d_spec() * parameters.rho_spec() * parameters.sec_spec()
                    * parameters.sec_spec()),
                _ => false,
            },
        },
{
    let v = parameters.v_usize();
    let ghost gsec = parameters.sec_spec();
    // shape
    match check_shape(proof, parameters) {
        Some(bad) => {
            return Err(MpcError::ProofMismatch { index: bad });
        },
        None => {},
    }
    // challenge
    let e = hash(&proof.a, &instance.c, &instance.pk, parameters);
    let m_e = generate_M_e(&e, parameters);
    let ghost ch = challenge_spec(&instance.pk, proof.a@, instance.c@, gsec);
    // row equations
    let mut i: usize = 0;
    while i < v
        invariant
            i <= v,
            v == parameters.v_spec(),
            parameters.wf(),
            instance.wf(parameters),
            proof_shaped(proof, parameters),
            e@ == ch,
            ch == challenge_spec(&instance.pk, proof.a@, instance.c@, parameters.sec_spec()),
            m_e@.len() == v,
            forall|k: int| 0 <= k < v ==> (#[trigger] m_e@[k])@.len() == parameters.sec_spec(),
            forall|k: int, tt: int|
                0 <= k < v && 0 <= tt < parameters.sec_spec() ==> (#[trigger] m_e@[k]@[tt]) as int
                    == m_e_entry(ch, k, tt, parameters.sec_spec()),
            forall|k: int| 0 <= k < i ==> eq_holds_at(proof, parameters, instance, ch, k),
        decreases v - i,
    {
        let ok = check_row(proof, parameters, instance, &m_e[i], i, Ghost(ch));
        if !ok {
            return Err(MpcError::ProofMismatch { index: i });
        }
        i = i + 1;
    }
    // norm bounds
    let bound_z: u128 = norm_bound_z(parameters);
    let bound_t: u128 = norm_bound_t(parameters);
    let q_e = parameters.q_u128();
    let (norm_z, zi_max) = max_norm_exec(&proof.z, q_e);
    if norm_z >= bound_z {
        return Err(MpcError::NormBound { kind: NormKind::Z, index: zi_max });
    }
    let (norm_t, ti_max) = max_norm_exec(&proof.t, q_e);
    if norm_t >= bound_t {
        return Err(MpcError::NormBound { kind: NormKind::T, index: ti_max });
    }
    Ok(())
}

} // verus!
