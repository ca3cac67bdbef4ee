//! The SPDZ offline-phase combinators and drivers: Reshare, PAngle,
//! PBracket, and Initialize / Pair / Triple.
//!
//! The parties are emulated locally: a function computes every party's
//! value, a broadcast is a vector, and joint decryption is a local
//! decryption under the combined key, as the protocol's test harness would
//! do.  Cryptographic failures (noise overflow, proof rejection) abort and
//! propagate.

use vstd::prelude::*;
use vstd::arithmetic::div_mod::{
    lemma_small_mod, lemma_mod_bound, lemma_add_mod_noop, lemma_sub_mod_noop_right,
};
use crate::arith::{bal, abs_int};
use crate::ring::{all_below, padd, psub, pneg, pad_seq, zero_seq, Encodedtext};
use crate::ciphertext::{dec_ring_seqs, dec_ring_spec, enc_c0_spec, enc_c1_spec, Ciphertext};
use crate::she::{SHEParameters, SecretKey, PublicKey, get_gaussian};
use crate::plaintext::{decode_spec, Plaintexts, Plaintext, Plaintextish};
use crate::zkpopk;
use crate::rng::gen_below;
use crate::error::MpcError;

verus! {

/// Whether Reshare must also output a fresh ciphertext of the value.
#[derive(Clone, Copy, PartialEq, Eq, Structural)]
pub enum CiphertextOption {
    NewCiphertext,
    NoNewCiphertext,
}

/// MAC-authenticated additive sharing: per-party shares of a value and of
/// `alpha * value`.
pub struct AngleShare {
    pub public_modifier: Plaintexts,
    pub share: Vec<Plaintexts>,
    pub mac: Vec<Plaintexts>,
}

/// Publicly verifiable sharing: per-party shares together with a private
/// key and the MACs it induces on every party's share.
pub struct BracketShare {
    pub share: Vec<Plaintexts>,
    pub mac: Vec<(Plaintexts, Vec<Plaintexts>)>,
}

/// The slotwise sum of the first `i` plaintext vectors.
pub open spec fn sum_shares(sh: Seq<Plaintexts>, s: nat, p: int, i: nat) -> Seq<int>
    decreases i,
{
    if i == 0 {
        zero_seq(s)
    } else {
        padd(sum_shares(sh, s, p, (i - 1) as nat), sh[i - 1].vals_spec(), p)
    }
}

/// Every entry of a share list is a well-formed plaintext of `s` slots
/// over `p`.
pub open spec fn shares_wf(sh: Seq<Plaintexts>, s: int, p: int) -> bool {
    forall|i: int|
        0 <= i < sh.len() ==> (#[trigger] sh[i]).wf() && sh[i].p_spec() == p
            && sh[i].vals_spec().len() == s
}

/// Adds up a list of plaintext share vectors.
pub fn sum_plaintexts(sh: &Vec<Plaintexts>, she_params: &SHEParameters) -> (r: Plaintexts)
    requires
        she_params.wf(),
        shares_wf(sh@, she_params.s_spec(), she_params.p_spec()),
    ensures
        r.wf(),
        r.p_spec() == she_params.p_spec(),
        r.vals_spec().len() == she_params.s_spec(),
        r.vals_spec() == sum_shares(
            sh@,
            she_params.s_spec() as nat,
            she_params.p_spec(),
            sh@.len(),
        ),
{
    let s = she_params.get_s();
    let p = she_params.get_p();
    let mut zero_vals: Vec<u128> = Vec::new();
    let mut z: usize = 0;
    while z < s
        invariant
            z <= s,
            zero_vals@.len() == z,
            forall|k: int| 0 <= k < z ==> zero_vals@[k] == 0u128,
        decreases s - z,
    {
        zero_vals.push(0);
        z = z + 1;
    }
    let mut acc = Plaintexts::from_vec(zero_vals, p);
    proof {
        assert(acc.vals_spec() =~= zero_seq(s as nat));
    }
    let len = sh.len();
    let mut i: usize = 0;
    while i < len
        invariant
            i <= len,
            len == sh@.len(),
            she_params.wf(),
            s == she_params.s_spec(),
            p == she_params.p_spec(),
            shares_wf(sh@, she_params.s_spec(), she_params.p_spec()),
            acc.wf(),
            acc.p_spec() == p,
            acc.vals_spec().len() == s,
            acc.vals_spec() == sum_shares(sh@, s as nat, p as int, i as nat),
        decreases len - i,
    {
        acc = acc.add(&sh[i]);
        i = i + 1;
    }
    acc
}

/// Splits an opened value `mf` into additive shares: party 0 holds
/// `mf - f_0`, every other party holds `-f_i`.  The shares sum to
/// `mf - sum(f)`, which is the heart of Reshare's correctness.
pub fn share_split(mf: &Plaintexts, f: &Vec<Plaintexts>, she_params: &SHEParameters) -> (r: Vec<
    Plaintexts,
>)
    requires
        she_params.wf(),
        1 <= f@.len(),
        mf.wf(),
        mf.p_spec() == she_params.p_spec(),
        mf.vals_spec().len() == she_params.s_spec(),
        shares_wf(f@, she_params.s_spec(), she_params.p_spec()),
    ensures
        r@.len() == f@.len(),
        shares_wf(r@, she_params.s_spec(), she_params.p_spec()),
        r@[0].vals_spec() == psub(mf.vals_spec(), f@[0].vals_spec(), she_params.p_spec()),
        forall|i: int|
            1 <= i < r@.len() ==> (#[trigger] r@[i]).vals_spec() == pneg(
                f@[i].vals_spec(),
                she_params.p_spec(),
            ),
        sum_shares(r@, she_params.s_spec() as nat, she_params.p_spec(), r@.len()) == psub(
            mf.vals_spec(),
            sum_shares(f@, she_params.s_spec() as nat, she_params.p_spec(), f@.len()),
            she_params.p_spec(),
        ),
{
    let ghost s = she_params.s_spec();
    let ghost p = she_params.p_spec();
    let len = f.len();
    let mut out: Vec<Plaintexts> = Vec::new();
    out.push(mf.sub(&f[0]));
    let mut i: usize = 1;
    while i < len
        invariant
            1 <= i <= len,
            len == f@.len(),
            she_params.wf(),
            s == she_params.s_spec(),
            p == she_params.p_spec(),
            mf.wf(),
            mf.p_spec() == p,
            mf.vals_spec().len() == s,
            shares_wf(f@, s, p),
            out@.len() == i,
            out@[0].vals_spec() == psub(mf.vals_spec(), f@[0].vals_spec(), p),
            out@[0].wf() && out@[0].p_spec() == p && out@[0].vals_spec().len() == s,
            forall|k: int|
                1 <= k < i ==> (#[trigger] out@[k]).vals_spec() == pneg(f@[k].vals_spec(), p),
            forall|k: int|
                1 <= k < i ==> (#[trigger] out@[k]).wf() && out@[k].p_spec() == p && out@[
                k].vals_spec().len() == s,
        decreases len - i,
    {
        out.push(f[i].neg());
        i = i + 1;
    }
    proof {
        lemma_split_sum(mf.vals_spec(), f@, out@, s as nat, p, len as nat);
    }
    out
}

/// The slotwise sum of any share prefix keeps length `s`.
pub proof fn lemma_sum_shares_len(sh: Seq<Plaintexts>, s: nat, p: int, i: nat)
    ensures
        sum_shares(sh, s, p, i).len() == s,
    decreases i,
{
    if i > 0 {
        lemma_sum_shares_len(sh, s, p, (i - 1) as nat);
    }
}

/// Share lists with slotwise equal entries have equal sums.
pub proof fn lemma_sum_shares_congruent(x: Seq<Plaintexts>, y: Seq<Plaintexts>, s: nat, p: int, i: nat)
    requires
        i <= x.len(),
        i <= y.len(),
        forall|k: int| 0 <= k < i ==> (#[trigger] x[k]).vals_spec() == y[k].vals_spec(),
    ensures
        sum_shares(x, s, p, i) == sum_shares(y, s, p, i),
    decreases i,
{
    if i > 0 {
        lemma_sum_shares_congruent(x, y, s, p, (i - 1) as nat);
    }
}

/// By induction: the split shares sum to `mf - sum(f)`.
proof fn lemma_split_sum(mf: Seq<int>, f: Seq<Plaintexts>, r: Seq<Plaintexts>, s: nat, p: int, i: nat)
    requires
        1 <= p,
        1 <= i <= f.len(),
        i <= r.len(),
        mf.len() == s,
        shares_wf(f, s as int, p),
        r[0].vals_spec() == psub(mf, f[0].vals_spec(), p),
        forall|k: int|
            1 <= k < r.len() ==> (#[trigger] r[k]).vals_spec() == pneg(f[k].vals_spec(), p),
    ensures
        sum_shares(r, s, p, i) == psub(mf, sum_shares(f, s, p, i), p),
    decreases i,
{
    lemma_sum_shares_len(f, s, p, i);
    lemma_sum_shares_len(f, s, p, (i - 1) as nat);
    lemma_sum_shares_len(r, s, p, i);
    lemma_sum_shares_len(r, s, p, (i - 1) as nat);
    if i == 1 {
        // sum(r, 1) = zero + r[0]; sum(f, 1) = zero + f[0]
        assert(sum_shares(r, s, p, 0) == zero_seq(s));
        assert(sum_shares(f, s, p, 0) == zero_seq(s));
        assert(sum_shares(r, s, p, 1) == padd(zero_seq(s), r[0].vals_spec(), p));
        assert forall|k: int| 0 <= k < s implies padd(zero_seq(s), r[0].vals_spec(), p)[k]
            == psub(mf, sum_shares(f, s, p, 1), p)[k] by {
            let fv = f[0].vals_spec()[k];
            lemma_mod_bound(mf[k] - fv, p);
            lemma_small_mod(((mf[k] - fv) % p) as nat, p as nat);
            assert(padd(zero_seq(s), r[0].vals_spec(), p)[k] == (0 + (mf[k] - fv) % p) % p);
            // and on the other side the zero base also drops out
            assert(sum_shares(f, s, p, 1) == padd(zero_seq(s), f[0].vals_spec(), p));
            assert(sum_shares(f, s, p, 1)[k] == (0 + fv) % p);
            lemma_small_mod(fv as nat, p as nat);
            lemma_sub_mod_noop_right(mf[k], fv, p);
            assert((mf[k] - (fv % p)) % p == (mf[k] - fv) % p);
        }
        assert(sum_shares(r, s, p, 1) =~= psub(mf, sum_shares(f, s, p, 1), p));
    } else {
        lemma_split_sum(mf, f, r, s, p, (i - 1) as nat);
        let prev_r = sum_shares(r, s, p, (i - 1) as nat);
        let prev_f = sum_shares(f, s, p, (i - 1) as nat);
        assert forall|k: int| 0 <= k < s implies sum_shares(r, s, p, i)[k] == psub(
            mf,
            sum_shares(f, s, p, i),
            p,
        )[k] by {
            let fv = f[i - 1].vals_spec()[k];
            let pf = prev_f[k];
            // left side: ((mf - pf) % p + (-fv) % p) % p == (mf - pf - fv) % p
            assert(sum_shares(r, s, p, i)[k] == (prev_r[k] + r[i - 1].vals_spec()[k]) % p);
            assert(prev_r[k] == (mf[k] - pf) % p);
            assert(r[i - 1].vals_spec()[k] == (0 - fv) % p);
            lemma_add_mod_noop(mf[k] - pf, 0 - fv, p);
            lemma_mod_bound(mf[k] - pf, p);
            lemma_mod_bound(0 - fv, p);
            lemma_small_mod(((mf[k] - pf) % p) as nat, p as nat);
            lemma_small_mod(((0 - fv) % p) as nat, p as nat);
            assert(((mf[k] - pf) % p + (0 - fv) % p) % p == (mf[k] - pf - fv) % p);
            // right side: (mf - (pf + fv) % p) % p == (mf - pf - fv) % p
            assert(sum_shares(f, s, p, i)[k] == (pf + fv) % p);
            lemma_sub_mod_noop_right(mf[k], pf + fv, p);
            assert((mf[k] - (pf + fv) % p) % p == (mf[k] - (pf + fv)) % p);
        }
        assert(sum_shares(r, s, p, i) =~= psub(mf, sum_shares(f, s, p, i), p));
    }
}

/// One party's published mask: the ciphertext components are a fresh
/// encryption, under some reduced randomness, of some ring encoding of the
/// party's plaintext mask.
pub open spec fn mask_encryption(
    c0: Seq<int>,
    c1: Seq<int>,
    f: Plaintexts,
    pk: &PublicKey,
    params: &SHEParameters,
) -> bool {
    exists|x: Seq<int>, rr: Seq<int>|
        #![trigger x.len(), rr.len()]
        {
            &&& x.len() == params.n_spec()
            &&& all_below(x, params.p_spec())
            &&& decode_spec(x, params.q_spec(), params) == f.vals_spec()
            &&& rr.len() == 3 * params.n_spec()
            &&& all_below(rr, params.q_spec())
            &&& c0 == enc_c0_spec(
                x,
                rr.subrange(0, params.n_spec()),
                rr.subrange(params.n_spec(), 2 * params.n_spec()),
                pk.b.coeffs(),
                params.p_spec(),
                params.q_spec(),
            )
            &&& c1 == enc_c1_spec(
                rr.subrange(0, params.n_spec()),
                rr.subrange(2 * params.n_spec(), 3 * params.n_spec()),
                pk.a.coeffs(),
                params.p_spec(),
                params.q_spec(),
            )
        }
}

/// A full mask list: `n_parties` well-formed masks, each with the two
/// nonzero components of its published fresh encryption.
pub open spec fn mask_encryptions(
    f: Seq<Plaintexts>,
    c0s: Seq<Seq<int>>,
    c1s: Seq<Seq<int>>,
    pk: &PublicKey,
    params: &SHEParameters,
    n_parties: int,
) -> bool {
    &&& f.len() == n_parties
    &&& c0s.len() == n_parties
    &&& c1s.len() == n_parties
    &&& shares_wf(f, params.s_spec(), params.p_spec())
    &&& forall|i: int|
        0 <= i < n_parties ==> mask_encryption(#[trigger] c0s[i], c1s[i], f[i], pk, params)
}

/// The componentwise sum of the first `i` component sequences.
pub open spec fn seq_sum(xs: Seq<Seq<int>>, n: nat, q: int, i: nat) -> Seq<int>
    decreases i,
{
    if i == 0 {
        zero_seq(n)
    } else {
        padd(seq_sum(xs, n, q, (i - 1) as nat), xs[i - 1], q)
    }
}

/// The decryption carrier of the input ciphertext masked by the summed
/// mask encryptions.
pub open spec fn masked_carrier(
    c0s: Seq<Seq<int>>,
    c1s: Seq<Seq<int>>,
    em_c0: Seq<int>,
    em_c1: Seq<int>,
    em_c2: Seq<int>,
    sk: &SecretKey,
    params: &SHEParameters,
    n_parties: int,
) -> Seq<int> {
    let n = params.n_spec() as nat;
    let q = params.q_spec();
    let l = em_c0.len();
    let ef0 = seq_sum(c0s, n, q, n_parties as nat);
    let ef1 = seq_sum(c1s, n, q, n_parties as nat);
    dec_ring_seqs(
        padd(pad_seq(em_c0, l), pad_seq(ef0, l), q),
        padd(pad_seq(em_c1, l), pad_seq(ef1, l), q),
        padd(pad_seq(em_c2, l), pad_seq(zero_seq(n), l), q),
        sk.s.coeffs(),
        q,
    )
}

/// What a carrier opens to: its balanced mod-p reduction, decoded.
pub open spec fn opened_of(d: Seq<int>, params: &SHEParameters) -> Seq<int> {
    decode_spec(
        Seq::new(d.len(), |k: int| bal(d[k], params.q_spec()) % params.p_spec()),
        params.q_spec(),
        params,
    )
}

/// Run-binding evidence that a share list is a resharing of the
/// ciphertext with the given components: there exist published masks whose
/// fresh encryptions sum onto the ciphertext, the masked carrier stays
/// within the noise budget, and the shares sum to the opened carrier minus
/// the mask sum.
#[verifier::opaque]
pub open spec fn reshare_opens_evidence(
    shares: Seq<Plaintexts>,
    em_c0: Seq<int>,
    em_c1: Seq<int>,
    em_c2: Seq<int>,
    pk: &PublicKey,
    sk: &SecretKey,
    params: &SHEParameters,
    n_parties: int,
) -> bool {
    exists|f: Seq<Plaintexts>, c0s: Seq<Seq<int>>, c1s: Seq<Seq<int>>|
        #![trigger f.len(), c0s.len(), c1s.len()]
        {
            let d = masked_carrier(c0s, c1s, em_c0, em_c1, em_c2, sk, params, n_parties);
            &&& mask_encryptions(f, c0s, c1s, pk, params, n_parties)
            &&& (forall|k: int|
                0 <= k < d.len() ==> 2 * abs_int(bal(#[trigger] d[k], params.q_spec()))
                    < params.q_spec())
            &&& sum_shares(shares, params.s_spec() as nat, params.p_spec(), n_parties as nat)
                == psub(
                opened_of(d, params),
                sum_shares(f, params.s_spec() as nat, params.p_spec(), n_parties as nat),
                params.p_spec(),
            )
        }
}

/// The full run-binding evidence reshare returns: the opening evidence
/// together with, in the `NewCiphertext` mode, the fresh output pinned
/// against the same mask encryptions.
#[verifier::opaque]
pub open spec fn reshare_evidence(
    shares: Seq<Plaintexts>,
    ct: Option<Ciphertext>,
    em_c0: Seq<int>,
    em_c1: Seq<int>,
    em_c2: Seq<int>,
    pk: &PublicKey,
    sk: &SecretKey,
    params: &SHEParameters,
    n_parties: int,
) -> bool {
    exists|f: Seq<Plaintexts>, c0s: Seq<Seq<int>>, c1s: Seq<Seq<int>>|
        #![trigger f.len(), c0s.len(), c1s.len()]
        {
            let d = masked_carrier(c0s, c1s, em_c0, em_c1, em_c2, sk, params, n_parties);
            &&& mask_encryptions(f, c0s, c1s, pk, params, n_parties)
            &&& (forall|k: int|
                0 <= k < d.len() ==> 2 * abs_int(bal(#[trigger] d[k], params.q_spec()))
                    < params.q_spec())
            &&& sum_shares(shares, params.s_spec() as nat, params.p_spec(), n_parties as nat)
                == psub(
                opened_of(d, params),
                sum_shares(f, params.s_spec() as nat, params.p_spec(), n_parties as nat),
                params.p_spec(),
            )
            &&& match ct {
                Some(c) => exists|x_new: Seq<int>|
                    #![trigger x_new.len()]
                    {
                        let n = params.n_spec();
                        let q = params.q_spec();
                        &&& x_new.len() == n
                        &&& all_below(x_new, params.p_spec())
                        &&& decode_spec(x_new, q, params) == opened_of(d, params)
                        &&& c.c0.coeffs() == psub(
                            enc_c0_spec(
                                x_new,
                                zero_seq(n as nat),
                                zero_seq(n as nat),
                                pk.b.coeffs(),
                                params.p_spec(),
                                q,
                            ),
                            seq_sum(c0s, n as nat, q, n_parties as nat),
                            q,
                        )
                        &&& c.c1.coeffs() == psub(
                            enc_c1_spec(
                                zero_seq(n as nat),
                                zero_seq(n as nat),
                                pk.a.coeffs(),
                                params.p_spec(),
                                q,
                            ),
                            seq_sum(c1s, n as nat, q, n_parties as nat),
                            q,
                        )
                    },
                None => true,
            }
        }
}

/// Evidence of a noise overflow: some run of masks pushes a coefficient of
/// the masked carrier to half the modulus.
#[verifier::opaque]
pub open spec fn reshare_overflow_evidence(
    em_c0: Seq<int>,
    em_c1: Seq<int>,
    em_c2: Seq<int>,
    pk: &PublicKey,
    sk: &SecretKey,
    params: &SHEParameters,
    n_parties: int,
) -> bool {
    exists|f: Seq<Plaintexts>, c0s: Seq<Seq<int>>, c1s: Seq<Seq<int>>|
        #![trigger f.len(), c0s.len(), c1s.len()]
        {
            let d = masked_carrier(c0s, c1s, em_c0, em_c1, em_c2, sk, params, n_parties);
            &&& mask_encryptions(f, c0s, c1s, pk, params, n_parties)
            &&& exists|k: int|
                0 <= k < d.len() && 2 * abs_int(bal(#[trigger] d[k], params.q_spec()))
                    >= params.q_spec()
        }
}

/// The joint evidence yields the opening evidence.
pub proof fn lemma_reshare_opens(
    shares: Seq<Plaintexts>,
    ct: Option<Ciphertext>,
    em_c0: Seq<int>,
    em_c1: Seq<int>,
    em_c2: Seq<int>,
    pk: &PublicKey,
    sk: &SecretKey,
    params: &SHEParameters,
    n_parties: int,
)
    requires
        reshare_evidence(shares, ct, em_c0, em_c1, em_c2, pk, sk, params, n_parties),
    ensures
        reshare_opens_evidence(shares, em_c0, em_c1, em_c2, pk, sk, params, n_parties),
{
    reveal(reshare_evidence);
    reveal(reshare_opens_evidence);
    let (f, c0s, c1s) = choose|f: Seq<Plaintexts>, c0s: Seq<Seq<int>>, c1s: Seq<Seq<int>>|
        #![trigger f.len(), c0s.len(), c1s.len()]
        {
            let d = masked_carrier(c0s, c1s, em_c0, em_c1, em_c2, sk, params, n_parties);
            &&& mask_encryptions(f, c0s, c1s, pk, params, n_parties)
            &&& (forall|k: int|
                0 <= k < d.len() ==> 2 * abs_int(bal(#[trigger] d[k], params.q_spec()))
                    < params.q_spec())
            &&& sum_shares(shares, params.s_spec() as nat, params.p_spec(), n_parties as nat)
                == psub(
                opened_of(d, params),
                sum_shares(f, params.s_spec() as nat, params.p_spec(), n_parties as nat),
                params.p_spec(),
            )
            &&& match ct {
                Some(c) => exists|x_new: Seq<int>|
                    #![trigger x_new.len()]
                    {
                        let n = params.n_spec();
                        let q = params.q_spec();
                        &&& x_new.len() == n
                        &&& all_below(x_new, params.p_spec())
                        &&& decode_spec(x_new, q, params) == opened_of(d, params)
                        &&& c.c0.coeffs() == psub(
                            enc_c0_spec(
                                x_new,
                                zero_seq(n as nat),
                                zero_seq(n as nat),
                                pk.b.coeffs(),
                                params.p_spec(),
                                q,
                            ),
                            seq_sum(c0s, n as nat, q, n_parties as nat),
                            q,
                        )
                        &&& c.c1.coeffs() == psub(
                            enc_c1_spec(
                                zero_seq(n as nat),
                                zero_seq(n as nat),
                                pk.a.coeffs(),
                                params.p_spec(),
                                q,
                            ),
                            seq_sum(c1s, n as nat, q, n_parties as nat),
                            q,
                        )
                    },
                None => true,
            }
        };
    assert(f.len() == n_parties);
    assert(c0s.len() == n_parties);
    assert(c1s.len() == n_parties);
}

/// Reshare: turns a ciphertext of `m` into an additive sharing of the
/// decrypted value.  Each party contributes a random mask `f_i`; the masked
/// ciphertext is decrypted jointly (emulated by a local decryption) and
/// split so that the shares sum to `(m + f) - f = m`.  With
/// `NewCiphertext` a fresh encryption of the opened value under canonical
/// (zero) randomness, minus the mask encryptions, is also returned.
///
/// The contract binds the outcome to the run: for the Ok case there exist
/// masks and their published fresh encryptions such that the shares sum to
/// the opened masked decryption minus the mask sum, and the optional fresh
/// ciphertext is the zero-randomness encryption of the opened value minus
/// the summed mask encryptions.
#[verifier::rlimit(100)]
pub fn reshare(
    e_m: &Ciphertext,
    enc: CiphertextOption,
    pk: &PublicKey,
    sk: &SecretKey,
    she_params: &SHEParameters,
    n_parties: usize,
    rng: &mut rand::rngs::StdRng,
) -> (r: Result<(Vec<Plaintexts>, Option<Ciphertext>), MpcError>)
    requires
        she_params.wf(),
        1 <= n_parties,
        e_m.wf(),
        e_m.q_spec() == she_params.q_spec(),
        she_params.n_spec() <= e_m.c0.coeffs().len() <= 3 * she_params.n_spec(),
        pk.a.wf(),
        pk.b.wf(),
        pk.a.q_spec() == she_params.q_spec(),
        pk.b.q_spec() == she_params.q_spec(),
        pk.a.coeffs().len() == she_params.n_spec(),
        pk.b.coeffs().len() == she_params.n_spec(),
        sk.s.wf(),
        sk.s.q_spec() == she_params.q_spec(),
        sk.s.coeffs().len() == she_params.n_spec(),
    ensures
        match r {
            Ok((shares, ct)) => {
                &&& shares@.len() == n_parties
                &&& shares_wf(shares@, she_params.s_spec(), she_params.p_spec())
                &&& (enc == (CiphertextOption::NewCiphertext) <==> ct is Some)
                &&& match ct {
                    Some(c) => c.wf() && c.q_spec() == she_params.q_spec()
                        && c.c0.coeffs().len() == she_params.n_spec() && c.is_fresh(),
                    None => true,
                }
                &&& reshare_evidence(
                    shares@,
                    ct,
                    e_m.c0.coeffs(),
                    e_m.c1.coeffs(),
                    e_m.c2.coeffs(),
                    pk,
                    sk,
                    she_params,
                    n_parties as int,
                )
            },
            Err(e) => {
                &&& e == (MpcError::NoiseOverflow)
                &&& she_params.q_spec() % 2 == 0
                &&& reshare_overflow_evidence(
                    e_m.c0.coeffs(),
                    e_m.c1.coeffs(),
                    e_m.c2.coeffs(),
                    pk,
                    sk,
                    she_params,
                    n_parties as int,
                )
            },
        },
{
    let n = she_params.get_n();
    let q = she_params.get_q();
    let ghost gq = she_params.q_spec();
    let ghost gn = she_params.n_spec();
    // step 1-2: every party samples a mask and broadcasts its encryption
    let mut f: Vec<Plaintexts> = Vec::new();
    let f0 = Plaintexts::rand(she_params, rng);
    let x0 = f0.encode(she_params);
    let r0 = get_gaussian(she_params, 3 * n, rng);
    let mut e_f = Ciphertext::encrypt_from(&x0, pk, &r0, she_params);
    f.push(f0);
    let ghost mut gc0s: Seq<Seq<int>> = Seq::empty().push(e_f.c0.coeffs());
    let ghost mut gc1s: Seq<Seq<int>> = Seq::empty().push(e_f.c1.coeffs());
    proof {
        assert(x0.coeffs().len() == gn);
        assert(r0.coeffs().len() == 3 * gn);
        assert(mask_encryption(gc0s[0], gc1s[0], f@[0], pk, she_params));
        assert(e_f.c0.coeffs() =~= padd(zero_seq(gn as nat), gc0s[0], gq)) by {
            crate::ring::lemma_padd_zero(e_f.c0.coeffs(), gq);
        }
        assert(e_f.c1.coeffs() =~= padd(zero_seq(gn as nat), gc1s[0], gq)) by {
            crate::ring::lemma_padd_zero(e_f.c1.coeffs(), gq);
        }
        assert(seq_sum(gc0s, gn as nat, gq, 0) == zero_seq(gn as nat));
        assert(seq_sum(gc1s, gn as nat, gq, 0) == zero_seq(gn as nat));
        assert(e_f.c0.coeffs() == seq_sum(gc0s, gn as nat, gq, 1));
        assert(e_f.c1.coeffs() == seq_sum(gc1s, gn as nat, gq, 1));
    }
    let mut i: usize = 1;
    while i < n_parties
        invariant
            1 <= i <= n_parties,
            she_params.wf(),
            n == she_params.n_spec(),
            q == she_params.q_spec(),
            gq == she_params.q_spec(),
            gn == she_params.n_spec(),
            pk.a.wf() && pk.b.wf(),
            pk.a.q_spec() == q as int && pk.b.q_spec() == q as int,
            pk.a.coeffs().len() == n && pk.b.coeffs().len() == n,
            f@.len() == i,
            gc0s.len() == i,
            gc1s.len() == i,
            shares_wf(f@, she_params.s_spec(), she_params.p_spec()),
            forall|k: int|
                0 <= k < i ==> mask_encryption(#[trigger] gc0s[k], gc1s[k], f@[k], pk, she_params),
            e_f.wf(),
            e_f.q_spec() == q as int,
            e_f.c0.coeffs().len() == n,
            e_f.c0.coeffs() == seq_sum(gc0s, gn as nat, gq, i as nat),
            e_f.c1.coeffs() == seq_sum(gc1s, gn as nat, gq, i as nat),
            e_f.c2.coeffs() == zero_seq(gn as nat),
            e_f.is_fresh(),
        decreases n_parties - i,
    {
        let fi = Plaintexts::rand(she_params, rng);
        let xi = fi.encode(she_params);
        let ri = get_gaussian(she_params, 3 * n, rng);
        let e_fi = Ciphertext::encrypt_from(&xi, pk, &ri, she_params);
        let summed = e_f.add(&e_fi);
        proof {
            assert(xi.coeffs().len() == gn);
            assert(ri.coeffs().len() == 3 * gn);
            assert(mask_encryption(e_fi.c0.coeffs(), e_fi.c1.coeffs(), fi, pk, she_params));
            let prev0 = gc0s;
            let prev1 = gc1s;
            gc0s = gc0s.push(e_fi.c0.coeffs());
            gc1s = gc1s.push(e_fi.c1.coeffs());
            assert(gc0s.drop_last() =~= prev0);
            assert(gc1s.drop_last() =~= prev1);
            lemma_seq_sum_prefix(gc0s, gn as nat, gq, i as nat);
            lemma_seq_sum_prefix(gc1s, gn as nat, gq, i as nat);
            assert(seq_sum(gc0s, gn as nat, gq, i as nat) == e_f.c0.coeffs());
            assert(seq_sum(gc1s, gn as nat, gq, i as nat) == e_f.c1.coeffs());
            assert(summed.c0.coeffs() =~= padd(
                seq_sum(gc0s, gn as nat, gq, i as nat),
                e_fi.c0.coeffs(),
                gq,
            ));
            assert(summed.c1.coeffs() =~= padd(
                seq_sum(gc1s, gn as nat, gq, i as nat),
                e_fi.c1.coeffs(),
                gq,
            ));
            assert(seq_sum(gc0s, gn as nat, gq, (i + 1) as nat) == padd(
                seq_sum(gc0s, gn as nat, gq, i as nat),
                gc0s[i as int],
                gq,
            ));
            assert forall|k: int| 0 <= k < summed.c2.coeffs().len() implies #[trigger] summed.c2.coeffs()[k]
                == 0 by {
                lemma_small_mod(0nat, she_params.q_spec() as nat);
            }
            assert(summed.c2.coeffs() =~= zero_seq(gn as nat));
        }
        e_f = summed;
        f.push(fi);
        i = i + 1;
    }
    // step 4: mask the input ciphertext
    let e_mf = e_m.add(&e_f);
    let ghost d = masked_carrier(
        gc0s,
        gc1s,
        e_m.c0.coeffs(),
        e_m.c1.coeffs(),
        e_m.c2.coeffs(),
        sk,
        she_params,
        n_parties as int,
    );
    proof {
        let l = e_m.c0.coeffs().len();
        assert(crate::ring::nat_max(l, gn as nat) == l);
        assert(pad_seq(zero_seq(gn as nat), l) =~= pad_seq(e_f.c2.coeffs(), l));
        assert(dec_ring_spec(&e_mf, sk.s.coeffs(), gq) == d);
    }
    // step 5: joint decryption (emulated locally)
    let mf_ring = match e_mf.decrypt(sk, she_params) {
        Ok(v) => v,
        Err(_) => {
            proof {
                assert(f@.len() == n_parties);
                assert(gc0s.len() == n_parties);
                assert(gc1s.len() == n_parties);
                assert(mask_encryptions(f@, gc0s, gc1s, pk, she_params, n_parties as int));
                reveal(reshare_overflow_evidence);
                assert(reshare_overflow_evidence(
                    e_m.c0.coeffs(),
                    e_m.c1.coeffs(),
                    e_m.c2.coeffs(),
                    pk,
                    sk,
                    she_params,
                    n_parties as int,
                ));
            }
            return Err(MpcError::NoiseOverflow);
        },
    };
    let mf = mf_ring.decode(she_params);
    proof {
        assert(mf_ring.coeffs() =~= Seq::new(
            d.len(),
            |k: int| bal(d[k], she_params.q_spec()) % she_params.p_spec(),
        ));
        assert(mf.vals_spec() == opened_of(d, she_params));
    }
    // step 6: split into shares that sum to mf - sum(f)
    let shares = share_split(&mf, &f, she_params);
    proof {
        assert(f@.len() == n_parties);
        assert(gc0s.len() == n_parties);
        assert(gc1s.len() == n_parties);
        assert(mask_encryptions(f@, gc0s, gc1s, pk, she_params, n_parties as int));
    }
    // step 7: optionally re-encrypt the opened value with public randomness
    if matches!(enc, CiphertextOption::NewCiphertext) {
        let x_new = mf.encode(she_params);
        let r_can = Encodedtext::zero(3 * n, q);
        let e_new_full = Ciphertext::encrypt_from(&x_new, pk, &r_can, she_params);
        let e_m_new = e_new_full.sub(&e_f);
        proof {
            assert forall|k: int| 0 <= k < e_m_new.c2.coeffs().len() implies #[trigger] e_m_new.c2.coeffs()[k]
                == 0 by {
                lemma_small_mod(0nat, she_params.q_spec() as nat);
            }
            // the canonical randomness blocks are all zero
            assert(r_can.coeffs().subrange(0, gn) =~= zero_seq(gn as nat));
            assert(r_can.coeffs().subrange(gn, 2 * gn) =~= zero_seq(gn as nat));
            assert(r_can.coeffs().subrange(2 * gn, 3 * gn) =~= zero_seq(gn as nat));
            assert(x_new.coeffs().len() == gn);
            assert(e_m_new.c0.coeffs() == psub(
                enc_c0_spec(
                    x_new.coeffs(),
                    zero_seq(gn as nat),
                    zero_seq(gn as nat),
                    pk.b.coeffs(),
                    she_params.p_spec(),
                    gq,
                ),
                seq_sum(gc0s, gn as nat, gq, n_parties as nat),
                gq,
            )) by {
                assert(pad_seq(e_new_full.c0.coeffs(), gn as nat) =~= e_new_full.c0.coeffs());
                assert(pad_seq(e_f.c0.coeffs(), gn as nat) =~= e_f.c0.coeffs());
            }
            assert(e_m_new.c1.coeffs() == psub(
                enc_c1_spec(
                    zero_seq(gn as nat),
                    zero_seq(gn as nat),
                    pk.a.coeffs(),
                    she_params.p_spec(),
                    gq,
                ),
                seq_sum(gc1s, gn as nat, gq, n_parties as nat),
                gq,
            )) by {
                assert(pad_seq(e_new_full.c1.coeffs(), gn as nat) =~= e_new_full.c1.coeffs());
                assert(pad_seq(e_f.c1.coeffs(), gn as nat) =~= e_f.c1.coeffs());
            }
            assert(x_new.coeffs().len() == gn && all_below(x_new.coeffs(), she_params.p_spec())
                && decode_spec(x_new.coeffs(), gq, she_params) == opened_of(d, she_params));
            reveal(reshare_evidence);
            assert(reshare_evidence(
                shares@,
                Some(e_m_new),
                e_m.c0.coeffs(),
                e_m.c1.coeffs(),
                e_m.c2.coeffs(),
                pk,
                sk,
                she_params,
                n_parties as int,
            ));
        }
        Ok((shares, Some(e_m_new)))
    } else {
        proof {
            reveal(reshare_evidence);
            assert(reshare_evidence(
                shares@,
                None,
                e_m.c0.coeffs(),
                e_m.c1.coeffs(),
                e_m.c2.coeffs(),
                pk,
                sk,
                she_params,
                n_parties as int,
            ));
        }
        Ok((shares, None))
    }
}

/// A summed prefix ignores entries beyond it.
proof fn lemma_seq_sum_prefix(xs: Seq<Seq<int>>, n: nat, q: int, i: nat)
    requires
        i < xs.len(),
    ensures
        seq_sum(xs, n, q, i) == seq_sum(xs.drop_last(), n, q, i),
    decreases i,
{
    if i > 0 {
        lemma_seq_sum_prefix(xs, n, q, (i - 1) as nat);
    }
}

/// Copies a list of plaintext share vectors, slot for slot.
pub fn copy_shares(sh: &Vec<Plaintexts>) -> (r: Vec<Plaintexts>)
    ensures
        r@.len() == sh@.len(),
        forall|i: int|
            0 <= i < sh@.len() ==> (#[trigger] r@[i]).vals_spec() == sh@[i].vals_spec() && r@[
            i].p_spec() == sh@[i].p_spec() && r@[i].wf() == sh@[i].wf(),
{
    let mut out: Vec<Plaintexts> = Vec::new();
    let mut i: usize = 0;
    let len = sh.len();
    while i < len
        invariant
            i <= len,
            len == sh@.len(),
            out@.len() == i,
            forall|k: int|
                0 <= k < i ==> (#[trigger] out@[k]).vals_spec() == sh@[k].vals_spec() && out@[
                k].p_spec() == sh@[k].p_spec() && out@[k].wf() == sh@[k].wf(),
        decreases len - i,
    {
        out.push(sh[i].clone());
        i = i + 1;
    }
    out
}

/// PAngle: given shares of `m`, a ciphertext of `m`, and the published
/// encryption of the MAC key, multiplies the two ciphertexts and reshares
/// the product into MAC shares of `alpha * m`.
pub fn angle(
    m_vec: Vec<Plaintexts>,
    e_m: &Ciphertext,
    e_alpha: &Ciphertext,
    pk: &PublicKey,
    sk: &SecretKey,
    she_params: &SHEParameters,
    rng: &mut rand::rngs::StdRng,
) -> (r: Result<AngleShare, MpcError>)
    requires
        she_params.wf(),
        1 <= m_vec@.len(),
        shares_wf(m_vec@, she_params.s_spec(), she_params.p_spec()),
        e_m.wf(),
        e_m.q_spec() == she_params.q_spec(),
        e_m.c0.coeffs().len() == she_params.n_spec(),
        e_alpha.wf(),
        e_alpha.q_spec() == she_params.q_spec(),
        e_alpha.c0.coeffs().len() == she_params.n_spec(),
        pk.a.wf(),
        pk.b.wf(),
        pk.a.q_spec() == she_params.q_spec(),
        pk.b.q_spec() == she_params.q_spec(),
        pk.a.coeffs().len() == she_params.n_spec(),
        pk.b.coeffs().len() == she_params.n_spec(),
        sk.s.wf(),
        sk.s.q_spec() == she_params.q_spec(),
        sk.s.coeffs().len() == she_params.n_spec(),
    ensures
        match r {
            Ok(a) => {
                &&& a.share == m_vec
                &&& a.share@.len() == m_vec@.len()
                &&& forall|i: int|
                    0 <= i < m_vec@.len() ==> (#[trigger] a.share@[i]).vals_spec() == m_vec@[
                    i].vals_spec()
                &&& a.mac@.len() == m_vec@.len()
                &&& shares_wf(a.share@, she_params.s_spec(), she_params.p_spec())
                &&& shares_wf(a.mac@, she_params.s_spec(), she_params.p_spec())
                &&& a.public_modifier.wf()
                &&& a.public_modifier.p_spec() == she_params.p_spec()
                &&& a.public_modifier.vals_spec() == zero_seq(she_params.s_spec() as nat)
                // the MAC shares are a resharing of the decryption of
                // e_m * e_alpha, so their sum ties to alpha * m
                &&& reshare_opens_evidence(
                    a.mac@,
                    crate::ring::neg_mul(
                        e_m.c0.coeffs(),
                        e_alpha.c0.coeffs(),
                        she_params.q_spec(),
                    ),
                    padd(
                        crate::ring::neg_mul(
                            e_m.c0.coeffs(),
                            e_alpha.c1.coeffs(),
                            she_params.q_spec(),
                        ),
                        crate::ring::neg_mul(
                            e_m.c1.coeffs(),
                            e_alpha.c0.coeffs(),
                            she_params.q_spec(),
                        ),
                        she_params.q_spec(),
                    ),
                    crate::ring::neg_mul(
                        e_m.c1.coeffs(),
                        e_alpha.c1.coeffs(),
                        she_params.q_spec(),
                    ),
                    pk,
                    sk,
                    she_params,
                    m_vec@.len() as int,
                )
            },
            Err(e) => (e == (MpcError::NoiseOverflow) && she_params.q_spec() % 2 == 0) || (e
                == (MpcError::DepthExceeded) && !(e_m.is_fresh() && e_alpha.is_fresh())),
        },
{
    let e_malpha = match e_m.mul(e_alpha) {
        Ok(c) => c,
        Err(_) => {
            return Err(MpcError::DepthExceeded);
        },
    };
    let n_parties = m_vec.len();
    let (gamma_vec, gnone) = match reshare(
        &e_malpha,
        CiphertextOption::NoNewCiphertext,
        pk,
        sk,
        she_params,
        n_parties,
        rng,
    ) {
        Ok(v) => v,
        Err(_) => {
            return Err(MpcError::NoiseOverflow);
        },
    };
    proof {
        lemma_reshare_opens(
            gamma_vec@,
            gnone,
            e_malpha.c0.coeffs(),
            e_malpha.c1.coeffs(),
            e_malpha.c2.coeffs(),
            pk,
            sk,
            she_params,
            n_parties as int,
        );
    }
    let _ = gnone;
    let s = she_params.get_s();
    let p = she_params.get_p();
    let mut zero_vals: Vec<u128> = Vec::new();
    let mut z: usize = 0;
    while z < s
        invariant
            z <= s,
            zero_vals@.len() == z,
            forall|k: int| 0 <= k < z ==> zero_vals@[k] == 0u128,
        decreases s - z,
    {
        zero_vals.push(0);
        z = z + 1;
    }
    let pm = Plaintexts::from_vec(zero_vals, p);
    proof {
        assert(pm.vals_spec() =~= zero_seq(s as nat));
    }
    Ok(AngleShare { public_modifier: pm, share: m_vec, mac: gamma_vec })
}

/// One bracket entry's run-binding evidence: the party's key is published
/// as a fresh encryption whose product with the input ciphertext the MAC
/// shares reshare.
#[verifier::opaque]
pub open spec fn bracket_entry_evidence(
    key: Plaintexts,
    macs: Seq<Plaintexts>,
    e_m: &Ciphertext,
    pk: &PublicKey,
    sk: &SecretKey,
    params: &SHEParameters,
    n_parties: int,
) -> bool {
    exists|b0: Seq<int>, b1: Seq<int>|
        #![trigger b0.len(), b1.len()]
        {
            &&& mask_encryption(b0, b1, key, pk, params)
            &&& reshare_opens_evidence(
                macs,
                crate::ring::neg_mul(b0, e_m.c0.coeffs(), params.q_spec()),
                padd(
                    crate::ring::neg_mul(b0, e_m.c1.coeffs(), params.q_spec()),
                    crate::ring::neg_mul(b1, e_m.c0.coeffs(), params.q_spec()),
                    params.q_spec(),
                ),
                crate::ring::neg_mul(b1, e_m.c1.coeffs(), params.q_spec()),
                pk,
                sk,
                params,
                n_parties,
            )
        }
}

/// PBracket: every party fixes a private key `beta_i`, multiplies its
/// encryption into the ciphertext of `m`, and reshares the product so that
/// party `j` holds a share of `beta_i * m`.
#[verifier::rlimit(60)]
pub fn bracket(
    m_vec: Vec<Plaintexts>,
    e_m: &Ciphertext,
    pk: &PublicKey,
    sk: &SecretKey,
    she_params: &SHEParameters,
    rng: &mut rand::rngs::StdRng,
) -> (r: Result<BracketShare, MpcError>)
    requires
        she_params.wf(),
        1 <= m_vec@.len(),
        shares_wf(m_vec@, she_params.s_spec(), she_params.p_spec()),
        e_m.wf(),
        e_m.q_spec() == she_params.q_spec(),
        e_m.c0.coeffs().len() == she_params.n_spec(),
        pk.a.wf(),
        pk.b.wf(),
        pk.a.q_spec() == she_params.q_spec(),
        pk.b.q_spec() == she_params.q_spec(),
        pk.a.coeffs().len() == she_params.n_spec(),
        pk.b.coeffs().len() == she_params.n_spec(),
        sk.s.wf(),
        sk.s.q_spec() == she_params.q_spec(),
        sk.s.coeffs().len() == she_params.n_spec(),
    ensures
        match r {
            Ok(b) => {
                &&& b.share == m_vec
                &&& b.share@.len() == m_vec@.len()
                &&& forall|i: int|
                    0 <= i < m_vec@.len() ==> (#[trigger] b.share@[i]).vals_spec() == m_vec@[
                    i].vals_spec()
                &&& b.mac@.len() == m_vec@.len()
                &&& shares_wf(b.share@, she_params.s_spec(), she_params.p_spec())
                &&& forall|i: int|
                    0 <= i < b.mac@.len() ==> (#[trigger] b.mac@[i].0).wf() && b.mac@[
                    i].0.p_spec() == she_params.p_spec() && b.mac@[i].0.vals_spec().len()
                        == she_params.s_spec() && b.mac@[i].1@.len() == m_vec@.len()
                        && shares_wf(
                        b.mac@[i].1@,
                        she_params.s_spec(),
                        she_params.p_spec(),
                    )
                // every party's key is a published diagonal whose encryption
                // multiplies into e_m; the key's MAC shares reshare that
                // product's decryption
                &&& forall|i: int, t: int|
                    0 <= i < b.mac@.len() && 0 <= t < she_params.s_spec()
                        ==> #[trigger] b.mac@[i].0.vals_spec()[t] == b.mac@[i].0.vals_spec()[0]
                &&& forall|i: int|
                    0 <= i < b.mac@.len() ==> bracket_entry_evidence(
                        (#[trigger] b.mac@[i]).0,
                        b.mac@[i].1@,
                        e_m,
                        pk,
                        sk,
                        she_params,
                        m_vec@.len() as int,
                    )
            },
            Err(e) => (e == (MpcError::NoiseOverflow) && she_params.q_spec() % 2 == 0) || (e
                == (MpcError::DepthExceeded) && !e_m.is_fresh()),
        },
{
    let n_parties = m_vec.len();
    let s = she_params.get_s();
    let p = she_params.get_p();
    let n = she_params.get_n();
    let mut mac: Vec<(Plaintexts, Vec<Plaintexts>)> = Vec::new();
    let mut i: usize = 0;
    while i < n_parties
        invariant
            i <= n_parties,
            1 <= n_parties,
            she_params.wf(),
            s == she_params.s_spec(),
            p == she_params.p_spec(),
            n == she_params.n_spec(),
            e_m.wf(),
            e_m.q_spec() == she_params.q_spec(),
            e_m.c0.coeffs().len() == n,
            pk.a.wf() && pk.b.wf(),
            pk.a.q_spec() == she_params.q_spec() && pk.b.q_spec() == she_params.q_spec(),
            pk.a.coeffs().len() == n && pk.b.coeffs().len() == n,
            sk.s.wf(),
            sk.s.q_spec() == she_params.q_spec(),
            sk.s.coeffs().len() == n,
            mac@.len() == i,
            forall|k: int|
                0 <= k < i ==> (#[trigger] mac@[k].0).wf() && mac@[k].0.p_spec() == p as int
                    && mac@[k].0.vals_spec().len() == s && mac@[k].1@.len() == n_parties
                    && shares_wf(mac@[k].1@, s as int, p as int),
            forall|k: int, t: int|
                0 <= k < i && 0 <= t < s ==> #[trigger] mac@[k].0.vals_spec()[t] == mac@[
                k].0.vals_spec()[0],
            forall|k: int|
                0 <= k < i ==> bracket_entry_evidence(
                    (#[trigger] mac@[k]).0,
                    mac@[k].1@,
                    e_m,
                    pk,
                    sk,
                    she_params,
                    n_parties as int,
                ),
        decreases n_parties - i,
    {
        let beta_val = gen_below(rng, p);
        let beta = Plaintext::new(beta_val, p).diagonalize(s);
        let x_beta = beta.encode(she_params);
        let r_beta = get_gaussian(she_params, 3 * n, rng);
        let e_beta = Ciphertext::encrypt_from(&x_beta, pk, &r_beta, she_params);
        let e_gamma = match e_beta.mul(e_m) {
            Ok(c) => c,
            Err(_) => {
                return Err(MpcError::DepthExceeded);
            },
        };
        let (gamma_vec, gnone) = match reshare(
            &e_gamma,
            CiphertextOption::NoNewCiphertext,
            pk,
            sk,
            she_params,
            n_parties,
            rng,
        ) {
            Ok(v) => v,
            Err(_) => {
                return Err(MpcError::NoiseOverflow);
            },
        };
        proof {
            lemma_reshare_opens(
                gamma_vec@,
                gnone,
                e_gamma.c0.coeffs(),
                e_gamma.c1.coeffs(),
                e_gamma.c2.coeffs(),
                pk,
                sk,
                she_params,
                n_parties as int,
            );
            assert(x_beta.coeffs().len() == she_params.n_spec());
            assert(r_beta.coeffs().len() == 3 * she_params.n_spec());
            assert(mask_encryption(
                e_beta.c0.coeffs(),
                e_beta.c1.coeffs(),
                beta,
                pk,
                she_params,
            ));
            reveal(bracket_entry_evidence);
            assert(bracket_entry_evidence(
                beta,
                gamma_vec@,
                e_m,
                pk,
                sk,
                she_params,
                n_parties as int,
            ));
        }
        mac.push((beta, gamma_vec));
        i = i + 1;
    }
    Ok(BracketShare { share: m_vec, mac })
}

/// Opens a sharing: the slotwise sum of all parties' shares.
pub fn open_angle(share: &AngleShare, she_params: &SHEParameters) -> (r: Plaintexts)
    requires
        she_params.wf(),
        shares_wf(share.share@, she_params.s_spec(), she_params.p_spec()),
    ensures
        r.wf(),
        r.p_spec() == she_params.p_spec(),
        r.vals_spec() == sum_shares(
            share.share@,
            she_params.s_spec() as nat,
            she_params.p_spec(),
            share.share@.len(),
        ),
{
    sum_plaintexts(&share.share, she_params)
}

/// Everything Initialize sets up: the emulated joint key pair, the
/// published encryption of the MAC key, and the bracket sharing of the
/// diagonal `alpha`.
pub struct Init {
    pub sk: SecretKey,
    pub pk: PublicKey,
    pub e_alpha: Ciphertext,
    pub diag_alpha: BracketShare,
}

/// Compatibility of the two parameter sets: the proof system speaks about
/// single-ciphertext batches over the same ring and moduli.
pub open spec fn params_compat(zp: &zkpopk::Parameters, sp: &SHEParameters) -> bool {
    &&& zp.wf()
    &&& sp.wf()
    &&& zp.n_spec() == sp.n_spec()
    &&& zp.q_spec() == sp.q_spec()
    &&& zp.p_spec() == sp.p_spec()
    &&& zp.sec_spec() == 1
}

/// Initialize: generates the key pair, lets every party sample and
/// publish an encrypted MAC-key share with a proof of plaintext knowledge,
/// and brackets the diagonal `alpha`.
pub fn initialize(
    zkpopk_params: &zkpopk::Parameters,
    she_params: &SHEParameters,
    n_parties: usize,
    rng: &mut rand::rngs::StdRng,
) -> (r: Result<Init, MpcError>)
    requires
        params_compat(zkpopk_params, she_params),
        1 <= n_parties,
    ensures
        match r {
            Ok(init) => {
                &&& init.pk.a.wf() && init.pk.b.wf()
                &&& init.pk.a.q_spec() == she_params.q_spec() && init.pk.b.q_spec()
                    == she_params.q_spec()
                &&& init.pk.a.coeffs().len() == she_params.n_spec()
                    && init.pk.b.coeffs().len() == she_params.n_spec()
                &&& init.sk.s.wf() && init.sk.s.q_spec() == she_params.q_spec()
                    && init.sk.s.coeffs().len() == she_params.n_spec()
                &&& init.e_alpha.wf() && init.e_alpha.q_spec() == she_params.q_spec()
                    && init.e_alpha.c0.coeffs().len() == she_params.n_spec()
                &&& init.e_alpha.is_fresh()
                &&& init.diag_alpha.share@.len() == n_parties
                &&& shares_wf(
                    init.diag_alpha.share@,
                    she_params.s_spec(),
                    she_params.p_spec(),
                )
                // the published MAC-key ciphertext is the sum of fresh
                // encryptions of exactly the emitted key shares
                &&& summed_encryptions_evidence(
                    init.diag_alpha.share@,
                    init.e_alpha.c0.coeffs(),
                    init.e_alpha.c1.coeffs(),
                    init.e_alpha.c2.coeffs(),
                    &init.pk,
                    she_params,
                    n_parties as int,
                )
                &&& forall|i: int|
                    0 <= i < n_parties ==> bracket_entry_evidence(
                        (#[trigger] init.diag_alpha.mac@[i]).0,
                        init.diag_alpha.mac@[i].1@,
                        &init.e_alpha,
                        &init.pk,
                        &init.sk,
                        she_params,
                        n_parties as int,
                    )
                &&& init.diag_alpha.mac@.len() == n_parties
            },
            Err(e) => (e == (MpcError::NoiseOverflow) && she_params.q_spec() % 2 == 0) || (
            e matches MpcError::ProofMismatch { .. }) || (e matches MpcError::NormBound { .. }),
        },
{
    let s = she_params.get_s();
    let n = she_params.get_n();
    let p = she_params.get_p();
    // emulated joint key generation
    let sk = SecretKey::generate(she_params, rng);
    let pk = sk.public_key_gen(she_params, rng);
    // each party samples its MAC-key share, encrypts and proves it
    let mut alpha_shares: Vec<Plaintexts> = Vec::new();
    let alpha0 = sample_published_diag(&pk, zkpopk_params, she_params, rng)?;
    let mut e_alpha = alpha0.1;
    alpha_shares.push(alpha0.0);
    let ghost gq = she_params.q_spec();
    let ghost gn = she_params.n_spec();
    let ghost mut gc0s: Seq<Seq<int>> = Seq::empty().push(e_alpha.c0.coeffs());
    let ghost mut gc1s: Seq<Seq<int>> = Seq::empty().push(e_alpha.c1.coeffs());
    proof {
        assert(mask_encryption(gc0s[0], gc1s[0], alpha_shares@[0], &pk, she_params));
        assert(e_alpha.c0.coeffs() =~= padd(zero_seq(gn as nat), gc0s[0], gq)) by {
            crate::ring::lemma_padd_zero(e_alpha.c0.coeffs(), gq);
        }
        assert(e_alpha.c1.coeffs() =~= padd(zero_seq(gn as nat), gc1s[0], gq)) by {
            crate::ring::lemma_padd_zero(e_alpha.c1.coeffs(), gq);
        }
        assert(seq_sum(gc0s, gn as nat, gq, 0) == zero_seq(gn as nat));
        assert(seq_sum(gc1s, gn as nat, gq, 0) == zero_seq(gn as nat));
        assert(e_alpha.c0.coeffs() == seq_sum(gc0s, gn as nat, gq, 1));
        assert(e_alpha.c1.coeffs() == seq_sum(gc1s, gn as nat, gq, 1));
        assert(e_alpha.c2.coeffs() =~= zero_seq(gn as nat));
    }
    let mut i: usize = 1;
    while i < n_parties
        invariant
            1 <= i <= n_parties,
            params_compat(zkpopk_params, she_params),
            s == she_params.s_spec(),
            n == she_params.n_spec(),
            p == she_params.p_spec(),
            gq == she_params.q_spec(),
            gn == she_params.n_spec(),
            pk.a.wf() && pk.b.wf(),
            pk.a.q_spec() == she_params.q_spec() && pk.b.q_spec() == she_params.q_spec(),
            pk.a.coeffs().len() == n && pk.b.coeffs().len() == n,
            sk.s.wf() && sk.s.q_spec() == she_params.q_spec() && sk.s.coeffs().len() == n,
            alpha_shares@.len() == i,
            gc0s.len() == i,
            gc1s.len() == i,
            shares_wf(alpha_shares@, she_params.s_spec(), she_params.p_spec()),
            forall|k: int|
                0 <= k < i ==> mask_encryption(
                    #[trigger] gc0s[k],
                    gc1s[k],
                    alpha_shares@[k],
                    &pk,
                    she_params,
                ),
            e_alpha.wf(),
            e_alpha.q_spec() == she_params.q_spec(),
            e_alpha.c0.coeffs().len() == n,
            e_alpha.c0.coeffs() == seq_sum(gc0s, gn as nat, gq, i as nat),
            e_alpha.c1.coeffs() == seq_sum(gc1s, gn as nat, gq, i as nat),
            e_alpha.c2.coeffs() == zero_seq(gn as nat),
            e_alpha.is_fresh(),
        decreases n_parties - i,
    {
        let extra = sample_published_diag(&pk, zkpopk_params, she_params, rng)?;
        let summed = e_alpha.add(&extra.1);
        proof {
            let prev0 = gc0s;
            let prev1 = gc1s;
            gc0s = gc0s.push(extra.1.c0.coeffs());
            gc1s = gc1s.push(extra.1.c1.coeffs());
            assert(gc0s.drop_last() =~= prev0);
            assert(gc1s.drop_last() =~= prev1);
            lemma_seq_sum_prefix(gc0s, gn as nat, gq, i as nat);
            lemma_seq_sum_prefix(gc1s, gn as nat, gq, i as nat);
            assert(summed.c0.coeffs() =~= padd(
                seq_sum(gc0s, gn as nat, gq, i as nat),
                extra.1.c0.coeffs(),
                gq,
            ));
            assert(summed.c1.coeffs() =~= padd(
                seq_sum(gc1s, gn as nat, gq, i as nat),
                extra.1.c1.coeffs(),
                gq,
            ));
            assert forall|k: int| 0 <= k < summed.c2.coeffs().len() implies #[trigger] summed.c2.coeffs()[k]
                == 0 by {
                lemma_small_mod(0nat, she_params.q_spec() as nat);
            }
            assert(summed.c2.coeffs() =~= zero_seq(gn as nat));
        }
        e_alpha = summed;
        alpha_shares.push(extra.0);
        i = i + 1;
    }
    proof {
        assert(mask_encryptions(
            alpha_shares@,
            gc0s,
            gc1s,
            &pk,
            she_params,
            n_parties as int,
        ));
    }
    let diag_alpha = bracket(alpha_shares, &e_alpha, &pk, &sk, she_params, rng)?;
    Ok(Init { sk, pk, e_alpha, diag_alpha })
}

/// One party's published contribution: a random diagonal plaintext, its
/// fresh encryption, and a verified proof of plaintext knowledge for it.
fn sample_published_diag(
    pk: &PublicKey,
    zkpopk_params: &zkpopk::Parameters,
    she_params: &SHEParameters,
    rng: &mut rand::rngs::StdRng,
) -> (r: Result<(Plaintexts, Ciphertext), MpcError>)
    requires
        params_compat(zkpopk_params, she_params),
        pk.a.wf(),
        pk.b.wf(),
        pk.a.q_spec() == she_params.q_spec(),
        pk.b.q_spec() == she_params.q_spec(),
        pk.a.coeffs().len() == she_params.n_spec(),
        pk.b.coeffs().len() == she_params.n_spec(),
    ensures
        match r {
            Ok((a, c)) => {
                &&& a.wf()
                &&& a.p_spec() == she_params.p_spec()
                &&& a.vals_spec().len() == she_params.s_spec()
                &&& c.wf()
                &&& c.q_spec() == she_params.q_spec()
                &&& c.c0.coeffs().len() == she_params.n_spec()
                &&& c.is_fresh()
                &&& mask_encryption(c.c0.coeffs(), c.c1.coeffs(), a, pk, she_params)
            },
            Err(e) => (e matches MpcError::ProofMismatch { .. }) || (
            e matches MpcError::NormBound { .. }),
        },
{
    let s = she_params.get_s();
    let n = she_params.get_n();
    let p = she_params.get_p();
    let val = gen_below(rng, p);
    let diag = Plaintext::new(val, p).diagonalize(s);
    let x = diag.encode(she_params);
    let r_enc = get_gaussian(she_params, 3 * n, rng);
    let e_c = Ciphertext::encrypt_from(&x, pk, &r_enc, she_params);
    // publish with a proof of plaintext knowledge over the one-element batch
    let mut cs: Vec<Ciphertext> = Vec::new();
    cs.push(e_c.clone());
    let instance = zkpopk::Instance::new(pk.clone(), cs);
    let mut xs: Vec<Encodedtext> = Vec::new();
    xs.push(x);
    let mut rs: Vec<Encodedtext> = Vec::new();
    rs.push(r_enc);
    let mut ms: Vec<Plaintexts> = Vec::new();
    ms.push(diag.clone());
    let witness = zkpopk::Witness::new(ms, &xs, &rs);
    let pf = zkpopk::prove(zkpopk_params, &witness, &instance, rng);
    match zkpopk::verify(&pf, zkpopk_params, &instance) {
        Ok(()) => {
            proof {
                assert(x.coeffs().len() == she_params.n_spec());
                assert(r_enc.coeffs().len() == 3 * she_params.n_spec());
                assert(mask_encryption(
                    e_c.c0.coeffs(),
                    e_c.c1.coeffs(),
                    diag,
                    pk,
                    she_params,
                ));
            }
            Ok((diag, e_c))
        },
        Err(e) => Err(
            match e {
                MpcError::NormBound { kind, index } => MpcError::NormBound { kind, index },
                MpcError::ProofMismatch { index } => MpcError::ProofMismatch { index },
                _ => MpcError::ProofMismatch { index: 0 },
            },
        ),
    }
}

/// Run-binding evidence that a ciphertext is the componentwise sum of the
/// published fresh encryptions of the given share list.
pub open spec fn summed_encryptions_evidence(
    sh: Seq<Plaintexts>,
    c0: Seq<int>,
    c1: Seq<int>,
    c2: Seq<int>,
    pk: &PublicKey,
    params: &SHEParameters,
    n_parties: int,
) -> bool {
    exists|c0s: Seq<Seq<int>>, c1s: Seq<Seq<int>>|
        #![trigger c0s.len(), c1s.len()]
        {
            &&& mask_encryptions(sh, c0s, c1s, pk, params, n_parties)
            &&& c0 == seq_sum(c0s, params.n_spec() as nat, params.q_spec(), n_parties as nat)
            &&& c1 == seq_sum(c1s, params.n_spec() as nat, params.q_spec(), n_parties as nat)
            &&& c2 == zero_seq(params.n_spec() as nat)
        }
}

/// One party-contributed uniform value: every party samples a plaintext
/// share and broadcasts its encryption; the sum stands for the value.
fn sample_shared_value(
    pk: &PublicKey,
    she_params: &SHEParameters,
    n_parties: usize,
    rng: &mut rand::rngs::StdRng,
) -> (r: (Vec<Plaintexts>, Ciphertext))
    requires
        she_params.wf(),
        1 <= n_parties,
        pk.a.wf(),
        pk.b.wf(),
        pk.a.q_spec() == she_params.q_spec(),
        pk.b.q_spec() == she_params.q_spec(),
        pk.a.coeffs().len() == she_params.n_spec(),
        pk.b.coeffs().len() == she_params.n_spec(),
    ensures
        r.0@.len() == n_parties,
        shares_wf(r.0@, she_params.s_spec(), she_params.p_spec()),
        r.1.wf(),
        r.1.q_spec() == she_params.q_spec(),
        r.1.c0.coeffs().len() == she_params.n_spec(),
        r.1.is_fresh(),
        summed_encryptions_evidence(
            r.0@,
            r.1.c0.coeffs(),
            r.1.c1.coeffs(),
            r.1.c2.coeffs(),
            pk,
            she_params,
            n_parties as int,
        ),
{
    let n = she_params.get_n();
    let ghost gq = she_params.q_spec();
    let ghost gn = she_params.n_spec();
    let mut shares: Vec<Plaintexts> = Vec::new();
    let v0 = Plaintexts::rand(she_params, rng);
    let x0 = v0.encode(she_params);
    let r0 = get_gaussian(she_params, 3 * n, rng);
    let mut e_sum = Ciphertext::encrypt_from(&x0, pk, &r0, she_params);
    shares.push(v0);
    let ghost mut gc0s: Seq<Seq<int>> = Seq::empty().push(e_sum.c0.coeffs());
    let ghost mut gc1s: Seq<Seq<int>> = Seq::empty().push(e_sum.c1.coeffs());
    proof {
        assert(x0.coeffs().len() == gn);
        assert(r0.coeffs().len() == 3 * gn);
        assert(mask_encryption(gc0s[0], gc1s[0], shares@[0], pk, she_params));
        assert(e_sum.c0.coeffs() =~= padd(zero_seq(gn as nat), gc0s[0], gq)) by {
            crate::ring::lemma_padd_zero(e_sum.c0.coeffs(), gq);
        }
        assert(e_sum.c1.coeffs() =~= padd(zero_seq(gn as nat), gc1s[0], gq)) by {
            crate::ring::lemma_padd_zero(e_sum.c1.coeffs(), gq);
        }
        assert(seq_sum(gc0s, gn as nat, gq, 0) == zero_seq(gn as nat));
        assert(seq_sum(gc1s, gn as nat, gq, 0) == zero_seq(gn as nat));
        assert(e_sum.c0.coeffs() == seq_sum(gc0s, gn as nat, gq, 1));
        assert(e_sum.c1.coeffs() == seq_sum(gc1s, gn as nat, gq, 1));
    }
    let mut i: usize = 1;
    while i < n_parties
        invariant
            1 <= i <= n_parties,
            she_params.wf(),
            n == she_params.n_spec(),
            gq == she_params.q_spec(),
            gn == she_params.n_spec(),
            pk.a.wf() && pk.b.wf(),
            pk.a.q_spec() == she_params.q_spec() && pk.b.q_spec() == she_params.q_spec(),
            pk.a.coeffs().len() == n && pk.b.coeffs().len() == n,
            shares@.len() == i,
            gc0s.len() == i,
            gc1s.len() == i,
            shares_wf(shares@, she_params.s_spec(), she_params.p_spec()),
            forall|k: int|
                0 <= k < i ==> mask_encryption(
                    #[trigger] gc0s[k],
                    gc1s[k],
                    shares@[k],
                    pk,
                    she_params,
                ),
            e_sum.wf(),
            e_sum.q_spec() == she_params.q_spec(),
            e_sum.c0.coeffs().len() == n,
            e_sum.c0.coeffs() == seq_sum(gc0s, gn as nat, gq, i as nat),
            e_sum.c1.coeffs() == seq_sum(gc1s, gn as nat, gq, i as nat),
            e_sum.c2.coeffs() == zero_seq(gn as nat),
            e_sum.is_fresh(),
        decreases n_parties - i,
    {
        let vi = Plaintexts::rand(she_params, rng);
        let xi = vi.encode(she_params);
        let ri = get_gaussian(she_params, 3 * n, rng);
        let e_i = Ciphertext::encrypt_from(&xi, pk, &ri, she_params);
        let summed = e_sum.add(&e_i);
        proof {
            assert(xi.coeffs().len() == gn);
            assert(ri.coeffs().len() == 3 * gn);
            assert(mask_encryption(e_i.c0.coeffs(), e_i.c1.coeffs(), vi, pk, she_params));
            let prev0 = gc0s;
            let prev1 = gc1s;
            gc0s = gc0s.push(e_i.c0.coeffs());
            gc1s = gc1s.push(e_i.c1.coeffs());
            assert(gc0s.drop_last() =~= prev0);
            assert(gc1s.drop_last() =~= prev1);
            lemma_seq_sum_prefix(gc0s, gn as nat, gq, i as nat);
            lemma_seq_sum_prefix(gc1s, gn as nat, gq, i as nat);
            assert(summed.c0.coeffs() =~= padd(
                seq_sum(gc0s, gn as nat, gq, i as nat),
                e_i.c0.coeffs(),
                gq,
            ));
            assert(summed.c1.coeffs() =~= padd(
                seq_sum(gc1s, gn as nat, gq, i as nat),
                e_i.c1.coeffs(),
                gq,
            ));
            assert forall|k: int| 0 <= k < summed.c2.coeffs().len() implies #[trigger] summed.c2.coeffs()[k]
                == 0 by {
                lemma_small_mod(0nat, she_params.q_spec() as nat);
            }
            assert(summed.c2.coeffs() =~= zero_seq(gn as nat));
        }
        e_sum = summed;
        shares.push(vi);
        i = i + 1;
    }
    proof {
        assert(gc0s.len() == n_parties);
        assert(gc1s.len() == n_parties);
        assert(mask_encryptions(shares@, gc0s, gc1s, pk, she_params, n_parties as int));
    }
    (shares, e_sum)
}

/// Pair: samples a fresh shared value `r` and outputs it in both share
/// flavours, `[r]` and `<r>`.
pub fn pair(
    e_alpha: &Ciphertext,
    pk: &PublicKey,
    sk: &SecretKey,
    zkpopk_params: &zkpopk::Parameters,
    she_params: &SHEParameters,
    n_parties: usize,
    rng: &mut rand::rngs::StdRng,
) -> (r: Result<(BracketShare, AngleShare), MpcError>)
    requires
        params_compat(zkpopk_params, she_params),
        1 <= n_parties,
        e_alpha.wf(),
        e_alpha.q_spec() == she_params.q_spec(),
        e_alpha.c0.coeffs().len() == she_params.n_spec(),
        e_alpha.is_fresh(),
        pk.a.wf(),
        pk.b.wf(),
        pk.a.q_spec() == she_params.q_spec(),
        pk.b.q_spec() == she_params.q_spec(),
        pk.a.coeffs().len() == she_params.n_spec(),
        pk.b.coeffs().len() == she_params.n_spec(),
        sk.s.wf(),
        sk.s.q_spec() == she_params.q_spec(),
        sk.s.coeffs().len() == she_params.n_spec(),
    ensures
        match r {
            Ok((b, a)) => {
                &&& b.share@.len() == n_parties
                &&& a.share@.len() == n_parties
                &&& a.mac@.len() == n_parties
                &&& shares_wf(a.share@, she_params.s_spec(), she_params.p_spec())
                &&& shares_wf(b.share@, she_params.s_spec(), she_params.p_spec())
                &&& shares_wf(a.mac@, she_params.s_spec(), she_params.p_spec())
                // both flavours carry one value
                &&& sum_shares(
                    b.share@,
                    she_params.s_spec() as nat,
                    she_params.p_spec(),
                    n_parties as nat,
                ) == sum_shares(
                    a.share@,
                    she_params.s_spec() as nat,
                    she_params.p_spec(),
                    n_parties as nat,
                )
            },
            Err(e) => e == (MpcError::NoiseOverflow) && she_params.q_spec() % 2 == 0,
        },
{
    let (r_vec, e_r) = sample_shared_value(pk, she_params, n_parties, rng);
    let r_vec_b = copy_shares(&r_vec);
    let r_angle = angle(r_vec, &e_r, e_alpha, pk, sk, she_params, rng)?;
    let r_bracket = bracket(r_vec_b, &e_r, pk, sk, she_params, rng)?;
    proof {
        let s = she_params.s_spec() as nat;
        let p = she_params.p_spec();
        lemma_sum_shares_congruent(r_angle.share@, r_vec@, s, p, n_parties as nat);
        lemma_sum_shares_congruent(r_bracket.share@, r_vec_b@, s, p, n_parties as nat);
        lemma_sum_shares_congruent(r_vec_b@, r_vec@, s, p, n_parties as nat);
    }
    Ok((r_bracket, r_angle))
}

/// The triple's run-binding evidence: the factor share lists are the
/// party contributions whose summed fresh encryptions were multiplied, and
/// the product shares reshare the decryption of that product ciphertext.
#[verifier::opaque]
pub open spec fn triple_evidence(
    a_sh: Seq<Plaintexts>,
    b_sh: Seq<Plaintexts>,
    c_sh: Seq<Plaintexts>,
    pk: &PublicKey,
    sk: &SecretKey,
    params: &SHEParameters,
    n_parties: int,
) -> bool {
    exists|ac0: Seq<Seq<int>>, ac1: Seq<Seq<int>>, bc0: Seq<Seq<int>>, bc1: Seq<Seq<int>>|
        #![trigger ac0.len(), ac1.len(), bc0.len(), bc1.len()]
        {
            let q = params.q_spec();
            let nn = params.n_spec() as nat;
            let np = n_parties as nat;
            let ea0 = seq_sum(ac0, nn, q, np);
            let ea1 = seq_sum(ac1, nn, q, np);
            let eb0 = seq_sum(bc0, nn, q, np);
            let eb1 = seq_sum(bc1, nn, q, np);
            &&& mask_encryptions(a_sh, ac0, ac1, pk, params, n_parties)
            &&& mask_encryptions(b_sh, bc0, bc1, pk, params, n_parties)
            &&& reshare_opens_evidence(
                c_sh,
                crate::ring::neg_mul(ea0, eb0, q),
                padd(crate::ring::neg_mul(ea0, eb1, q), crate::ring::neg_mul(ea1, eb0, q), q),
                crate::ring::neg_mul(ea1, eb1, q),
                pk,
                sk,
                params,
                n_parties,
            )
        }
}

/// Assembles the triple evidence from the two contribution certificates
/// and the product resharing certificate.
proof fn lemma_triple_evidence_intro(
    a_sh: Seq<Plaintexts>,
    b_sh: Seq<Plaintexts>,
    c_sh: Seq<Plaintexts>,
    ea0: Seq<int>,
    ea1: Seq<int>,
    ea2: Seq<int>,
    eb0: Seq<int>,
    eb1: Seq<int>,
    eb2: Seq<int>,
    pk: &PublicKey,
    sk: &SecretKey,
    params: &SHEParameters,
    n_parties: int,
)
    requires
        summed_encryptions_evidence(a_sh, ea0, ea1, ea2, pk, params, n_parties),
        summed_encryptions_evidence(b_sh, eb0, eb1, eb2, pk, params, n_parties),
        reshare_opens_evidence(
            c_sh,
            crate::ring::neg_mul(ea0, eb0, params.q_spec()),
            padd(
                crate::ring::neg_mul(ea0, eb1, params.q_spec()),
                crate::ring::neg_mul(ea1, eb0, params.q_spec()),
                params.q_spec(),
            ),
            crate::ring::neg_mul(ea1, eb1, params.q_spec()),
            pk,
            sk,
            params,
            n_parties,
        ),
    ensures
        triple_evidence(a_sh, b_sh, c_sh, pk, sk, params, n_parties),
{
    let q = params.q_spec();
    let nn = params.n_spec() as nat;
    let np = n_parties as nat;
    let (ac0, ac1) = choose|c0s: Seq<Seq<int>>, c1s: Seq<Seq<int>>|
        #![trigger c0s.len(), c1s.len()]
        {
            &&& mask_encryptions(a_sh, c0s, c1s, pk, params, n_parties)
            &&& ea0 == seq_sum(c0s, nn, q, np)
            &&& ea1 == seq_sum(c1s, nn, q, np)
            &&& ea2 == zero_seq(nn)
        };
    let (bc0, bc1) = choose|c0s: Seq<Seq<int>>, c1s: Seq<Seq<int>>|
        #![trigger c0s.len(), c1s.len()]
        {
            &&& mask_encryptions(b_sh, c0s, c1s, pk, params, n_parties)
            &&& eb0 == seq_sum(c0s, nn, q, np)
            &&& eb1 == seq_sum(c1s, nn, q, np)
            &&& eb2 == zero_seq(nn)
        };
    assert(mask_encryptions(a_sh, ac0, ac1, pk, params, n_parties) && ea0 == seq_sum(
        ac0,
        nn,
        q,
        np,
    ) && ea1 == seq_sum(ac1, nn, q, np));
    assert(mask_encryptions(b_sh, bc0, bc1, pk, params, n_parties) && eb0 == seq_sum(
        bc0,
        nn,
        q,
        np,
    ) && eb1 == seq_sum(bc1, nn, q, np));
    reveal(triple_evidence);
    assert(ac0.len() == n_parties);
    assert(bc0.len() == n_parties);
}

/// Triple: samples shared values `a` and `b`, multiplies their
/// ciphertexts to obtain `c = a * b`, reshares `c` with a fresh
/// ciphertext, and authenticates all three.
pub fn triple(
    e_alpha: &Ciphertext,
    pk: &PublicKey,
    sk: &SecretKey,
    zkpopk_params: &zkpopk::Parameters,
    she_params: &SHEParameters,
    n_parties: usize,
    rng: &mut rand::rngs::StdRng,
) -> (r: Result<(AngleShare, AngleShare, AngleShare), MpcError>)
    requires
        params_compat(zkpopk_params, she_params),
        1 <= n_parties,
        e_alpha.wf(),
        e_alpha.q_spec() == she_params.q_spec(),
        e_alpha.c0.coeffs().len() == she_params.n_spec(),
        e_alpha.is_fresh(),
        pk.a.wf(),
        pk.b.wf(),
        pk.a.q_spec() == she_params.q_spec(),
        pk.b.q_spec() == she_params.q_spec(),
        pk.a.coeffs().len() == she_params.n_spec(),
        pk.b.coeffs().len() == she_params.n_spec(),
        sk.s.wf(),
        sk.s.q_spec() == she_params.q_spec(),
        sk.s.coeffs().len() == she_params.n_spec(),
    ensures
        match r {
            Ok((a, b, c)) => {
                &&& a.share@.len() == n_parties
                &&& b.share@.len() == n_parties
                &&& c.share@.len() == n_parties
                &&& a.mac@.len() == n_parties
                &&& b.mac@.len() == n_parties
                &&& c.mac@.len() == n_parties
                &&& shares_wf(a.share@, she_params.s_spec(), she_params.p_spec())
                &&& shares_wf(b.share@, she_params.s_spec(), she_params.p_spec())
                &&& shares_wf(c.share@, she_params.s_spec(), she_params.p_spec())
                &&& triple_evidence(
                    a.share@,
                    b.share@,
                    c.share@,
                    pk,
                    sk,
                    she_params,
                    n_parties as int,
                )
            },
            Err(e) => e == (MpcError::NoiseOverflow) && she_params.q_spec() % 2 == 0,
        },
{
    let (a_vec, e_a) = sample_shared_value(pk, she_params, n_parties, rng);
    let (b_vec, e_b) = sample_shared_value(pk, she_params, n_parties, rng);
    let e_c = match e_a.mul(&e_b) {
        Ok(c) => c,
        Err(_) => {
            return Err(MpcError::DepthExceeded);
        },
    };
    let (c_vec, e_c_new_opt) = match reshare(
        &e_c,
        CiphertextOption::NewCiphertext,
        pk,
        sk,
        she_params,
        n_parties,
        rng,
    ) {
        Ok(v) => v,
        Err(_) => {
            return Err(MpcError::NoiseOverflow);
        },
    };
    let ghost gopt = e_c_new_opt;
    let e_c_new = match e_c_new_opt {
        Some(c) => c,
        None => {
            return Err(MpcError::NoiseOverflow);
        },
    };
    proof {
        lemma_reshare_opens(
            c_vec@,
            gopt,
            e_c.c0.coeffs(),
            e_c.c1.coeffs(),
            e_c.c2.coeffs(),
            pk,
            sk,
            she_params,
            n_parties as int,
        );
    }
    let a_angle = angle(a_vec, &e_a, e_alpha, pk, sk, she_params, rng)?;
    let b_angle = angle(b_vec, &e_b, e_alpha, pk, sk, she_params, rng)?;
    let c_angle = angle(c_vec, &e_c_new, e_alpha, pk, sk, she_params, rng)?;
    proof {
        assert(a_angle.share == a_vec);
        assert(b_angle.share == b_vec);
        assert(c_angle.share == c_vec);
        lemma_triple_evidence_intro(
            a_angle.share@,
            b_angle.share@,
            c_angle.share@,
            e_a.c0.coeffs(),
            e_a.c1.coeffs(),
            e_a.c2.coeffs(),
            e_b.c0.coeffs(),
            e_b.c1.coeffs(),
            e_b.c2.coeffs(),
            pk,
            sk,
            she_params,
            n_parties as int,
        );
    }
    Ok((a_angle, b_angle, c_angle))
}

/// The MAC check: accepts exactly when the summed MAC shares equal
/// `alpha * (opened + public_modifier)` slot for slot.
pub fn mac_check(
    opened: &Plaintexts,
    share: &AngleShare,
    alpha_shares: &Vec<Plaintexts>,
    she_params: &SHEParameters,
) -> (r: Result<(), MpcError>)
    requires
        she_params.wf(),
        opened.wf(),
        opened.p_spec() == she_params.p_spec(),
        opened.vals_spec().len() == she_params.s_spec(),
        share.public_modifier.wf(),
        share.public_modifier.p_spec() == she_params.p_spec(),
        share.public_modifier.vals_spec().len() == she_params.s_spec(),
        shares_wf(share.mac@, she_params.s_spec(), she_params.p_spec()),
        shares_wf(alpha_shares@, she_params.s_spec(), she_params.p_spec()),
    ensures
        (r is Ok) <==> sum_shares(
            share.mac@,
            she_params.s_spec() as nat,
            she_params.p_spec(),
            share.mac@.len(),
        ) == crate::plaintext::pmul(
            sum_shares(
                alpha_shares@,
                she_params.s_spec() as nat,
                she_params.p_spec(),
                alpha_shares@.len(),
            ),
            padd(
                opened.vals_spec(),
                share.public_modifier.vals_spec(),
                she_params.p_spec(),
            ),
            she_params.p_spec(),
        ),
        (r is Err) ==> r == Err::<(), MpcError>(MpcError::MacCheckFailure),
{
    let alpha = sum_plaintexts(alpha_shares, she_params);
    let masked = opened.add(&share.public_modifier);
    let rhs = alpha.mul(&masked);
    let lhs = sum_plaintexts(&share.mac, she_params);
    if lhs.equals(&rhs) {
        Ok(())
    } else {
        Err(MpcError::MacCheckFailure)
    }
}

} // verus!
