//! BGV-like ciphertexts: triples `(c0, c1, c2)` of ring elements.
//!
//! A fresh encryption has `c2 = 0`; one level of multiplication fills the
//! third component with the folded tensor product, and a second
//! multiplication is refused with `DepthExceeded`.  Decryption computes
//! `c0 - c1 * s + c2 * s^2`, balances each coefficient and reduces mod `p`.

use vstd::prelude::*;
use vstd::arithmetic::div_mod::{
    lemma_add_mod_noop, lemma_add_mod_noop_right, lemma_sub_mod_noop, lemma_mod_bound,
};
use crate::arith::{bal, abs_int, fadd, lemma_bal_add};
use crate::ring::{
    all_below, padd, psub, pscale, pad_seq, neg_mul, zero_seq, nat_max, lemma_neg_mul_add_left,
    Encodedtext,
};
use crate::she::{SHEParameters, PublicKey};
use crate::error::MpcError;

verus! {

/// `c0` of a fresh encryption: `b * u + p * v + x`.
pub open spec fn enc_c0_spec(
    x: Seq<int>,
    u: Seq<int>,
    v: Seq<int>,
    b: Seq<int>,
    p: int,
    q: int,
) -> Seq<int> {
    padd(padd(neg_mul(b, u, q), pscale(v, p, q), q), x, q)
}

/// `c1` of a fresh encryption: `a * u + p * w`.
pub open spec fn enc_c1_spec(u: Seq<int>, w: Seq<int>, a: Seq<int>, p: int, q: int) -> Seq<int> {
    padd(neg_mul(a, u, q), pscale(w, p, q), q)
}

/// The ring element a decryption balances and reduces, over raw component
/// sequences: `c0 - c1 * s + c2 * s^2`, with `s` padded to the component
/// length.
pub open spec fn dec_ring_seqs(
    c0: Seq<int>,
    c1: Seq<int>,
    c2: Seq<int>,
    sk: Seq<int>,
    q: int,
) -> Seq<int> {
    let l = c0.len();
    let sp = pad_seq(sk, l);
    padd(psub(c0, neg_mul(c1, sp, q), q), neg_mul(c2, neg_mul(sp, sp, q), q), q)
}

/// The decryption carrier of a ciphertext value.
pub open spec fn dec_ring_spec(c: &Ciphertext, sk: Seq<int>, q: int) -> Seq<int> {
    dec_ring_seqs(c.c0.coeffs(), c.c1.coeffs(), c.c2.coeffs(), sk, q)
}

/// Law: additive homomorphism.  Whenever the decryption carriers of two
/// ciphertexts of one shape are jointly within the noise budget, the
/// carrier of their componentwise sum balances to the sum of their
/// balanced carriers, so decrypting the sum gives, coefficient for
/// coefficient mod `p`, the sum of the two decryptions.
pub proof fn lemma_additive_homomorphism(
    ca: &Ciphertext,
    cb: &Ciphertext,
    cs: &Ciphertext,
    sk: Seq<int>,
    params: &SHEParameters,
)
    requires
        params.wf(),
        ca.wf(),
        cb.wf(),
        ca.q_spec() == params.q_spec(),
        cb.q_spec() == params.q_spec(),
        ca.c0.coeffs().len() == cb.c0.coeffs().len(),
        cs.c0.coeffs() == padd(ca.c0.coeffs(), cb.c0.coeffs(), params.q_spec()),
        cs.c1.coeffs() == padd(ca.c1.coeffs(), cb.c1.coeffs(), params.q_spec()),
        cs.c2.coeffs() == padd(ca.c2.coeffs(), cb.c2.coeffs(), params.q_spec()),
        forall|k: int|
            0 <= k < ca.c0.coeffs().len() ==> 2 * (abs_int(
                bal(
                    #[trigger] dec_ring_spec(ca, sk, params.q_spec())[k],
                    params.q_spec(),
                ),
            ) + abs_int(bal(dec_ring_spec(cb, sk, params.q_spec())[k], params.q_spec())))
                < params.q_spec(),
    ensures
        forall|k: int|
            0 <= k < ca.c0.coeffs().len() ==> #[trigger] dec_ring_spec(
                cs,
                sk,
                params.q_spec(),
            )[k] == fadd(
                dec_ring_spec(ca, sk, params.q_spec())[k],
                dec_ring_spec(cb, sk, params.q_spec())[k],
                params.q_spec(),
            ),
        forall|k: int|
            0 <= k < ca.c0.coeffs().len() ==> bal(
                #[trigger] dec_ring_spec(cs, sk, params.q_spec())[k],
                params.q_spec(),
            ) == bal(dec_ring_spec(ca, sk, params.q_spec())[k], params.q_spec()) + bal(
                dec_ring_spec(cb, sk, params.q_spec())[k],
                params.q_spec(),
            ),
        forall|k: int|
            0 <= k < ca.c0.coeffs().len() ==> bal(
                #[trigger] dec_ring_spec(cs, sk, params.q_spec())[k],
                params.q_spec(),
            ) % params.p_spec() == (bal(dec_ring_spec(ca, sk, params.q_spec())[k], params.q_spec())
                % params.p_spec() + bal(
                dec_ring_spec(cb, sk, params.q_spec())[k],
                params.q_spec(),
            ) % params.p_spec()) % params.p_spec(),
{
    let q = params.q_spec();
    let p = params.p_spec();
    let l = ca.c0.coeffs().len();
    let sp = pad_seq(sk, l);
    let ss = neg_mul(sp, sp, q);
    let na1 = neg_mul(ca.c1.coeffs(), sp, q);
    let nb1 = neg_mul(cb.c1.coeffs(), sp, q);
    let na2 = neg_mul(ca.c2.coeffs(), ss, q);
    let nb2 = neg_mul(cb.c2.coeffs(), ss, q);
    let da = dec_ring_spec(ca, sk, q);
    let db = dec_ring_spec(cb, sk, q);
    let ds = dec_ring_spec(cs, sk, q);
    lemma_neg_mul_add_left(ca.c1.coeffs(), cb.c1.coeffs(), sp, q);
    lemma_neg_mul_add_left(ca.c2.coeffs(), cb.c2.coeffs(), ss, q);
    assert(neg_mul(cs.c1.coeffs(), sp, q) == padd(na1, nb1, q));
    assert(neg_mul(cs.c2.coeffs(), ss, q) == padd(na2, nb2, q));
    assert forall|k: int| 0 <= k < l implies #[trigger] ds[k] == fadd(da[k], db[k], q) by {
        let a0 = ca.c0.coeffs()[k];
        let b0 = cb.c0.coeffs()[k];
        let xa1 = na1[k];
        let xb1 = nb1[k];
        let xa2 = na2[k];
        let xb2 = nb2[k];
        // the sum ciphertext's carrier coefficient
        assert(ds[k] == (((a0 + b0) % q - (xa1 + xb1) % q) % q + (xa2 + xb2) % q) % q);
        lemma_sub_mod_noop(a0 + b0, xa1 + xb1, q);
        lemma_add_mod_noop(a0 + b0 - (xa1 + xb1), xa2 + xb2, q);
        assert(ds[k] == (a0 + b0 - xa1 - xb1 + xa2 + xb2) % q);
        // each summand's carrier coefficient
        assert(da[k] == ((a0 - xa1) % q + xa2) % q);
        lemma_add_mod_noop_right(xa2, a0 - xa1, q);
        assert(da[k] == (xa2 + (a0 - xa1) % q) % q == (xa2 + (a0 - xa1)) % q);
        assert(db[k] == ((b0 - xb1) % q + xb2) % q);
        lemma_add_mod_noop_right(xb2, b0 - xb1, q);
        assert(db[k] == (xb2 + (b0 - xb1)) % q);
        lemma_add_mod_noop(xa2 + a0 - xa1, xb2 + b0 - xb1, q);
        assert((da[k] + db[k]) % q == (xa2 + a0 - xa1 + xb2 + b0 - xb1) % q);
    }
    assert forall|k: int| 0 <= k < l implies bal(#[trigger] ds[k], q) == bal(da[k], q) + bal(
        db[k],
        q,
    ) by {
        lemma_mod_bound(da[k], q);
        lemma_mod_bound(db[k], q);
        assert(0 <= da[k] < q) by {
            lemma_mod_bound(((ca.c0.coeffs()[k] - na1[k]) % q) + na2[k], q);
        }
        assert(0 <= db[k] < q) by {
            lemma_mod_bound(((cb.c0.coeffs()[k] - nb1[k]) % q) + nb2[k], q);
        }
        lemma_bal_add(da[k], db[k], q);
    }
    assert forall|k: int| 0 <= k < l implies bal(#[trigger] ds[k], q) % p == (bal(da[k], q) % p
        + bal(db[k], q) % p) % p by {
        lemma_add_mod_noop(bal(da[k], q), bal(db[k], q), p);
    }
}

/// A ciphertext: three ring elements of equal length over the same modulus.
pub struct Ciphertext {
    pub c0: Encodedtext,
    pub c1: Encodedtext,
    pub c2: Encodedtext,
}

impl Clone for Ciphertext {
    fn clone(&self) -> (r: Self)
        ensures
            r.c0.coeffs() == self.c0.coeffs(),
            r.c1.coeffs() == self.c1.coeffs(),
            r.c2.coeffs() == self.c2.coeffs(),
            r.c0.q_spec() == self.c0.q_spec(),
            r.c1.q_spec() == self.c1.q_spec(),
            r.c2.q_spec() == self.c2.q_spec(),
            r.wf() == self.wf(),
    {
        Self { c0: self.c0.clone(), c1: self.c1.clone(), c2: self.c2.clone() }
    }
}

impl Ciphertext {
    pub open spec fn wf(&self) -> bool {
        &&& self.c0.wf()
        &&& self.c1.wf()
        &&& self.c2.wf()
        &&& self.c0.q_spec() == self.c1.q_spec()
        &&& self.c0.q_spec() == self.c2.q_spec()
        &&& self.c0.coeffs().len() == self.c1.coeffs().len()
        &&& self.c0.coeffs().len() == self.c2.coeffs().len()
    }

    pub open spec fn q_spec(&self) -> int {
        self.c0.q_spec()
    }

    /// Fresh: the product component is zero, so one multiplication is
    /// still available.
    pub open spec fn is_fresh(&self) -> bool {
        forall|k: int| 0 <= k < self.c2.coeffs().len() ==> #[trigger] self.c2.coeffs()[k] == 0
    }

    pub fn new(c0: Encodedtext, c1: Encodedtext, c2: Encodedtext) -> (r: Self)
        ensures
            r.c0 == c0,
            r.c1 == c1,
            r.c2 == c2,
    {
        Self { c0, c1, c2 }
    }

    pub fn get_degree(&self) -> (r: usize)
        ensures
            r == self.c0.coeffs().len(),
    {
        self.c0.get_degree()
    }

    pub fn get_q(&self) -> (r: u128)
        ensures
            r == self.q_spec(),
    {
        self.c0.get_q()
    }

    /// A uniformly random ciphertext of the given degree (no key involved).
    pub fn rand(length: usize, q: u128, rng: &mut rand::rngs::StdRng) -> (r: Self)
        requires
            2 <= q <= crate::arith::modulus_bound(),
        ensures
            r.wf(),
            r.q_spec() == q,
            r.c0.coeffs().len() == length,
    {
        let c0 = Encodedtext::rand(length, q, rng);
        let c1 = Encodedtext::rand(length, q, rng);
        let c2 = Encodedtext::rand(length, q, rng);
        Self { c0, c1, c2 }
    }

    /// Encrypts a ring element under `pk` with the supplied randomness
    /// `r_enc = (u, v, w)` (three blocks of length `n`).
    pub fn encrypt_from(
        x: &Encodedtext,
        pk: &PublicKey,
        r_enc: &Encodedtext,
        params: &SHEParameters,
    ) -> (r: Ciphertext)
        requires
            params.wf(),
            x.wf(),
            x.q_spec() == params.q_spec(),
            x.coeffs().len() == params.n_spec(),
            pk.a.wf(),
            pk.b.wf(),
            pk.a.q_spec() == params.q_spec(),
            pk.b.q_spec() == params.q_spec(),
            pk.a.coeffs().len() == params.n_spec(),
            pk.b.coeffs().len() == params.n_spec(),
            r_enc.wf(),
            r_enc.q_spec() == params.q_spec(),
            r_enc.coeffs().len() == 3 * params.n_spec(),
        ensures
            r.wf(),
            r.q_spec() == params.q_spec(),
            r.c0.coeffs().len() == params.n_spec(),
            r.is_fresh(),
            r.c0.coeffs() == enc_c0_spec(
                x.coeffs(),
                r_enc.coeffs().subrange(0, params.n_spec()),
                r_enc.coeffs().subrange(params.n_spec(), 2 * params.n_spec()),
                pk.b.coeffs(),
                params.p_spec(),
                params.q_spec(),
            ),
            r.c1.coeffs() == enc_c1_spec(
                r_enc.coeffs().subrange(0, params.n_spec()),
                r_enc.coeffs().subrange(2 * params.n_spec(), 3 * params.n_spec()),
                pk.a.coeffs(),
                params.p_spec(),
                params.q_spec(),
            ),
            r.c2.coeffs() == zero_seq(params.n_spec() as nat),
    {
        let n = params.get_n();
        let p = params.get_p();
        let q = params.get_q();
        Self::encrypt_core(x, pk, r_enc, n, p, q)
    }

    /// The encryption body, over explicit ring dimensions and moduli:
    /// `(b * u + p * v + x, a * u + p * w, 0)`.
    pub fn encrypt_core(
        x: &Encodedtext,
        pk: &PublicKey,
        r_enc: &Encodedtext,
        n: usize,
        p: u128,
        q: u128,
    ) -> (r: Ciphertext)
        requires
            2 <= p,
            p < q,
            2 <= q <= crate::arith::modulus_bound(),
            1 <= n,
            8 * n <= usize::MAX,
            x.wf(),
            x.q_spec() == q,
            x.coeffs().len() == n,
            pk.a.wf(),
            pk.b.wf(),
            pk.a.q_spec() == q,
            pk.b.q_spec() == q,
            pk.a.coeffs().len() == n,
            pk.b.coeffs().len() == n,
            r_enc.wf(),
            r_enc.q_spec() == q,
            r_enc.coeffs().len() == 3 * n,
        ensures
            r.wf(),
            r.q_spec() == q,
            r.c0.coeffs().len() == n,
            r.is_fresh(),
            r.c0.coeffs() == enc_c0_spec(
                x.coeffs(),
                r_enc.coeffs().subrange(0, n as int),
                r_enc.coeffs().subrange(n as int, 2 * n),
                pk.b.coeffs(),
                p as int,
                q as int,
            ),
            r.c1.coeffs() == enc_c1_spec(
                r_enc.coeffs().subrange(0, n as int),
                r_enc.coeffs().subrange(2 * n, 3 * n),
                pk.a.coeffs(),
                p as int,
                q as int,
            ),
            r.c2.coeffs() == zero_seq(n as nat),
    {
        let u = r_enc.subrange_et(0, n);
        let v = r_enc.subrange_et(n, 2 * n);
        let w = r_enc.subrange_et(2 * n, 3 * n);
        let bu = pk.b.mul(&u);
        let pv = v.scale_res(p);
        let c0 = bu.add(&pv).add(x);
        let au = pk.a.mul(&u);
        let pw = w.scale_res(p);
        let c1 = au.add(&pw);
        let c2 = Encodedtext::zero(n, q);
        proof {
            let gq = q as int;
            assert(pad_seq(bu.coeffs(), n as nat) =~= bu.coeffs());
            assert(pad_seq(pv.coeffs(), n as nat) =~= pv.coeffs());
            let s0 = padd(bu.coeffs(), pv.coeffs(), gq);
            assert(pad_seq(s0, n as nat) =~= s0);
            assert(pad_seq(x.coeffs(), n as nat) =~= x.coeffs());
            assert(pad_seq(au.coeffs(), n as nat) =~= au.coeffs());
            assert(pad_seq(pw.coeffs(), n as nat) =~= pw.coeffs());
        }
        Ciphertext { c0, c1, c2 }
    }

    /// Componentwise sum; the shorter ciphertext is padded with zeros.
    pub fn add(&self, other: &Self) -> (r: Self)
        requires
            self.wf(),
            other.wf(),
            self.q_spec() == other.q_spec(),
        ensures
            r.wf(),
            r.q_spec() == self.q_spec(),
            r.c0.coeffs().len() == nat_max(self.c0.coeffs().len(), other.c0.coeffs().len()),
            r.c0.coeffs() == padd(
                pad_seq(self.c0.coeffs(), nat_max(self.c0.coeffs().len(), other.c0.coeffs().len())),
                pad_seq(
                    other.c0.coeffs(),
                    nat_max(self.c0.coeffs().len(), other.c0.coeffs().len()),
                ),
                self.q_spec(),
            ),
            r.c1.coeffs() == padd(
                pad_seq(self.c1.coeffs(), nat_max(self.c0.coeffs().len(), other.c0.coeffs().len())),
                pad_seq(
                    other.c1.coeffs(),
                    nat_max(self.c0.coeffs().len(), other.c0.coeffs().len()),
                ),
                self.q_spec(),
            ),
            r.c2.coeffs() == padd(
                pad_seq(self.c2.coeffs(), nat_max(self.c0.coeffs().len(), other.c0.coeffs().len())),
                pad_seq(
                    other.c2.coeffs(),
                    nat_max(self.c0.coeffs().len(), other.c0.coeffs().len()),
                ),
                self.q_spec(),
            ),
    {
        let c0 = self.c0.add(&other.c0);
        let c1 = self.c1.add(&other.c1);
        let c2 = self.c2.add(&other.c2);
        Self { c0, c1, c2 }
    }

    /// Componentwise difference; the shorter ciphertext is padded with zeros.
    pub fn sub(&self, other: &Self) -> (r: Self)
        requires
            self.wf(),
            other.wf(),
            self.q_spec() == other.q_spec(),
        ensures
            r.wf(),
            r.q_spec() == self.q_spec(),
            r.c0.coeffs().len() == nat_max(self.c0.coeffs().len(), other.c0.coeffs().len()),
            r.c0.coeffs() == psub(
                pad_seq(self.c0.coeffs(), nat_max(self.c0.coeffs().len(), other.c0.coeffs().len())),
                pad_seq(
                    other.c0.coeffs(),
                    nat_max(self.c0.coeffs().len(), other.c0.coeffs().len()),
                ),
                self.q_spec(),
            ),
            r.c1.coeffs() == psub(
                pad_seq(self.c1.coeffs(), nat_max(self.c0.coeffs().len(), other.c0.coeffs().len())),
                pad_seq(
                    other.c1.coeffs(),
                    nat_max(self.c0.coeffs().len(), other.c0.coeffs().len()),
                ),
                self.q_spec(),
            ),
            r.c2.coeffs() == psub(
                pad_seq(self.c2.coeffs(), nat_max(self.c0.coeffs().len(), other.c0.coeffs().len())),
                pad_seq(
                    other.c2.coeffs(),
                    nat_max(self.c0.coeffs().len(), other.c0.coeffs().len()),
                ),
                self.q_spec(),
            ),
    {
        let c0 = self.c0.sub(&other.c0);
        let c1 = self.c1.sub(&other.c1);
        let c2 = self.c2.sub(&other.c2);
        Self { c0, c1, c2 }
    }

    /// One level of multiplication: the tensor product
    /// `(c0 c0', c0 c1' + c1 c0', c1 c1')`, each component folded back into
    /// the ring of degree `n`.  A ciphertext that already holds a product
    /// is refused.
    pub fn mul(&self, other: &Self) -> (r: Result<Self, MpcError>)
        requires
            self.wf(),
            other.wf(),
            self.q_spec() == other.q_spec(),
            self.c0.coeffs().len() == other.c0.coeffs().len(),
            1 <= self.c0.coeffs().len(),
            2 * self.c0.coeffs().len() <= usize::MAX,
        ensures
            (r is Ok) <==> (self.is_fresh() && other.is_fresh()),
            match r {
                Ok(c) => {
                    let q = self.q_spec();
                    &&& c.wf()
                    &&& c.q_spec() == q
                    &&& c.c0.coeffs().len() == self.c0.coeffs().len()
                    &&& c.c0.coeffs() == neg_mul(self.c0.coeffs(), other.c0.coeffs(), q)
                    &&& c.c1.coeffs() == padd(
                        neg_mul(self.c0.coeffs(), other.c1.coeffs(), q),
                        neg_mul(self.c1.coeffs(), other.c0.coeffs(), q),
                        q,
                    )
                    &&& c.c2.coeffs() == neg_mul(self.c1.coeffs(), other.c1.coeffs(), q)
                },
                Err(e) => e == (MpcError::DepthExceeded),
            },
    {
        if !self.fresh_check() || !other.fresh_check() {
            return Err(MpcError::DepthExceeded);
        }
        let ghost n = self.c0.coeffs().len();
        let c0 = self.c0.mul(&other.c0);
        let t1 = self.c0.mul(&other.c1);
        let t2 = self.c1.mul(&other.c0);
        let c1 = t1.add(&t2);
        let c2 = self.c1.mul(&other.c1);
        proof {
            assert(pad_seq(t1.coeffs(), n as nat) =~= t1.coeffs());
            assert(pad_seq(t2.coeffs(), n as nat) =~= t2.coeffs());
        }
        Ok(Self { c0, c1, c2 })
    }

    /// Every component scaled by the integer `c`.
    pub fn mul_scalar(&self, c: i128) -> (r: Self)
        requires
            self.wf(),
        ensures
            r.wf(),
            r.q_spec() == self.q_spec(),
            r.c0.coeffs().len() == self.c0.coeffs().len(),
            r.c0.coeffs() == pscale(self.c0.coeffs(), c as int, self.q_spec()),
            r.c1.coeffs() == pscale(self.c1.coeffs(), c as int, self.q_spec()),
            r.c2.coeffs() == pscale(self.c2.coeffs(), c as int, self.q_spec()),
    {
        Self {
            c0: self.c0.mul_scalar(c),
            c1: self.c1.mul_scalar(c),
            c2: self.c2.mul_scalar(c),
        }
    }

    /// Whether the product component is identically zero.
    pub fn fresh_check(&self) -> (r: bool)
        requires
            self.wf(),
        ensures
            r == self.is_fresh(),
    {
        let len = self.c2.get_degree();
        let mut i: usize = 0;
        while i < len
            invariant
                i <= len,
                len == self.c2.coeffs().len(),
                self.wf(),
                forall|k: int| 0 <= k < i ==> #[trigger] self.c2.coeffs()[k] == 0,
            decreases len - i,
        {
            if self.c2.coeff_at(i) != 0 {
                return false;
            }
            i = i + 1;
        }
        true
    }

    /// Decrypts: computes `c0 - c1 * s + c2 * s^2`, rejects a coefficient
    /// whose balanced lift reaches `q / 2`, and otherwise returns the
    /// balanced mod-`p` reduction (still carried in the mod-`q` ring).
    ///
    /// A balanced lift can reach `q / 2` only for an even modulus, so for
    /// the odd moduli the parameters use in practice the overflow report
    /// never fires; the contract records this (`Err` implies `q` is even).
    /// A wraparound beyond the noise budget is mathematically undetectable
    /// here; the budget itself is enforced by parameter validation
    /// (`fresh_noise_bound` in `SHEParameters::wf`).
    pub fn decrypt(&self, sk: &crate::she::SecretKey, params: &SHEParameters) -> (r: Result<
        Encodedtext,
        MpcError,
    >)
        requires
            self.wf(),
            params.wf(),
            self.q_spec() == params.q_spec(),
            sk.s.wf(),
            sk.s.q_spec() == params.q_spec(),
            sk.s.coeffs().len() <= self.c0.coeffs().len(),
            1 <= self.c0.coeffs().len(),
            2 * self.c0.coeffs().len() <= usize::MAX,
        ensures
            match r {
                Ok(m) => {
                    let d = dec_ring_spec(self, sk.s.coeffs(), self.q_spec());
                    &&& m.wf()
                    &&& m.q_spec() == self.q_spec()
                    &&& m.coeffs().len() == self.c0.coeffs().len()
                    &&& (forall|k: int|
                        0 <= k < d.len() ==> 2 * crate::arith::abs_int(
                            bal(#[trigger] d[k], self.q_spec()),
                        ) < self.q_spec())
                    &&& (forall|k: int|
                        0 <= k < m.coeffs().len() ==> #[trigger] m.coeffs()[k] == bal(
                            d[k],
                            self.q_spec(),
                        ) % params.p_spec())
                },
                Err(e) => {
                    &&& e == (MpcError::NoiseOverflow)
                    &&& exists|k: int|
                        0 <= k < self.c0.coeffs().len() && 2 * crate::arith::abs_int(
                            bal(
                                #[trigger] dec_ring_spec(self, sk.s.coeffs(), self.q_spec())[k],
                                self.q_spec(),
                            ),
                        ) >= self.q_spec()
                    // a balanced magnitude can only reach q/2 for even q, so
                    // with an odd coefficient modulus this branch is closed
                    &&& self.q_spec() % 2 == 0
                },
            },
    {
        let q = self.get_q();
        let p = params.get_p();
        let l = self.c0.get_degree();
        let sp = sk.s.pad_to(l);
        let c1s = self.c1.mul(&sp);
        let s2 = sp.mul(&sp);
        let c2s2 = self.c2.mul(&s2);
        let first = self.c0.sub(&c1s);
        let m_ring = first.add(&c2s2);
        proof {
            assert(pad_seq(self.c0.coeffs(), l as nat) =~= self.c0.coeffs());
            assert(pad_seq(c1s.coeffs(), l as nat) =~= c1s.coeffs());
            assert(pad_seq(first.coeffs(), l as nat) =~= first.coeffs());
            assert(pad_seq(c2s2.coeffs(), l as nat) =~= c2s2.coeffs());
            assert(m_ring.coeffs() == dec_ring_spec(self, sk.s.coeffs(), self.q_spec()));
        }
        // noise check: every balanced lift must stay below q/2
        let mut i: usize = 0;
        while i < l
            invariant
                i <= l,
                l == m_ring.coeffs().len(),
                l == self.c0.coeffs().len(),
                m_ring.wf(),
                q == m_ring.q_spec(),
                q == self.q_spec(),
                m_ring.coeffs() == dec_ring_spec(self, sk.s.coeffs(), self.q_spec()),
                forall|k: int|
                    0 <= k < i ==> 2 * crate::arith::abs_int(
                        bal(#[trigger] m_ring.coeffs()[k], q as int),
                    ) < q as int,
            decreases l - i,
        {
            let c = m_ring.coeff_at(i);
            let b = crate::arith::bal_abs(c, q);
            if b >= q / 2 + q % 2 {
                proof {
                    assert(2 * (b as int) >= q as int);
                    let d = dec_ring_spec(self, sk.s.coeffs(), self.q_spec());
                    assert(m_ring.coeffs()[i as int] == d[i as int]);
                    assert(2 * crate::arith::abs_int(bal(d[i as int], self.q_spec()))
                        >= self.q_spec());
                    crate::arith::lemma_bal_half(d[i as int], self.q_spec());
                }
                return Err(MpcError::NoiseOverflow);
            }
            proof {
                assert(2 * (b as int) < q as int);
            }
            i = i + 1;
        }
        let out = m_ring.modulo_p(p);
        Ok(out)
    }
}

} // verus!
