//! The somewhat-homomorphic encryption layer: scheme parameters with their
//! startup validation, key generation, and bounded noise sampling.
//!
//! Plaintext packing evaluates at the odd powers of a primitive 2s-th root
//! of unity omega in F_p, so validation finds omega, derives the evaluation
//! points, and certifies the Lagrange denominators' inverses by a product
//! check; everything later proofs need is recorded in `wf`.

use vstd::prelude::*;
use vstd::arithmetic::div_mod::{lemma_mod_bound, lemma_add_mod_noop_right};
use crate::arith::{
    fadd, fmul, fpow, modulus_bound, add_mod, sub_mod, mul_mod, pow_mod,
};
use crate::ring::{all_below, Encodedtext};
use crate::rng::gen_below;
use crate::error::MpcError;

verus! {

/// `n` is a power of two.
pub open spec fn is_pow2(n: nat) -> bool
    decreases n,
{
    if n == 0 {
        false
    } else if n == 1 {
        true
    } else if n % 2 == 1 {
        false
    } else {
        is_pow2(n / 2)
    }
}

/// Horner evaluation of a coefficient sequence at `x`, mod `p`.
pub open spec fn eval_at(c: Seq<int>, x: int, p: int) -> int
    decreases c.len(),
{
    if c.len() == 0 {
        0int
    } else {
        (c[0] + x * eval_at(c.subrange(1, c.len() as int), x, p)) % p
    }
}

/// Product of the first `j` differences `pts[i] - pts[k]` (skipping `k == i`),
/// mod `p`: a prefix of the `i`-th Lagrange denominator.
pub open spec fn den_prefix(pts: Seq<int>, i: int, p: int, j: nat) -> int
    decreases j,
{
    if j == 0 {
        1int % p
    } else if j - 1 == i {
        den_prefix(pts, i, p, (j - 1) as nat)
    } else {
        (den_prefix(pts, i, p, (j - 1) as nat) * ((pts[i] - pts[j - 1]) % p)) % p
    }
}

/// The full `i`-th Lagrange denominator over the point set.
pub open spec fn lag_den(pts: Seq<int>, i: int, p: int) -> int {
    den_prefix(pts, i, p, pts.len())
}

/// An upper bound on the balanced norm of `c0 - c1 * s` for a fresh
/// ciphertext, given the noise magnitude bound `2 * std_dev`.
pub open spec fn fresh_noise_bound(p: int, n: int, sd: int) -> int {
    p * (2 * n * (2 * sd) * (2 * sd) + 2 * sd + 1) + p
}

/// The size and divisibility conditions validation checks before any root
/// search.
pub open spec fn size_ok(s: int, n: int, p: int, q: int, sd: int) -> bool {
    &&& n == s
    &&& 1 <= s <= 0x4000_0000_0000
    &&& 8 * s <= usize::MAX
    &&& is_pow2(s as nat)
    &&& 2 <= p <= 0x1_0000_0000_0000_0001
    &&& 2 <= q <= modulus_bound()
    &&& 4 * p < q
    &&& 1 <= sd
    &&& 2 * sd + 1 <= p
    &&& 2 * fresh_noise_bound(p, n, sd) < q
    &&& p % (2 * s) == 1
}

/// The packing points a candidate root generates: `omega^(2i+1)`.
pub open spec fn omega_points(omega: int, s: int, p: int) -> Seq<int> {
    Seq::new(s as nat, |i: int| fpow(omega, (2 * i + 1) as nat, p))
}

/// A candidate root that validation accepts: `omega^s = -1`, every
/// generated point satisfies `pt^n = -1`, and every Lagrange denominator is
/// inverted by its Fermat candidate `den^(p-2)`.
pub open spec fn omega_admissible(omega: int, s: int, n: int, p: int) -> bool {
    let pts = omega_points(omega, s, p);
    &&& fpow(omega, s as nat, p) == p - 1
    &&& forall|i: int| 0 <= i < s ==> fpow(#[trigger] pts[i], n as nat, p) == p - 1
    &&& forall|i: int|
        0 <= i < s ==> fmul(
            #[trigger] lag_den(pts, i, p),
            fpow(lag_den(pts, i, p), (p - 2) as nat, p),
            p,
        ) == 1
}


/// If any partial product of the noise-budget formula outgrows the machine
/// word, the budget itself exceeds any representable coefficient modulus.
proof fn lemma_fnb_large(p: int, n: int, sd: int, q: int)
    requires
        p >= 2,
        n >= 1,
        sd >= 1,
        q <= modulus_bound(),
        (2 * n) * (2 * sd) > u128::MAX || ((2 * n) * (2 * sd)) * (2 * sd) > u128::MAX || (2 * n)
            * (2 * sd) * (2 * sd) + 2 * sd + 1 > u128::MAX || p * ((2 * n) * (2 * sd) * (2 * sd)
            + 2 * sd + 1) > u128::MAX || p * ((2 * n) * (2 * sd) * (2 * sd) + 2 * sd + 1) + p
            > u128::MAX,
    ensures
        !(2 * fresh_noise_bound(p, n, sd) < q),
{
    let a = (2 * n) * (2 * sd);
    let b = a * (2 * sd);
    let inner = b + 2 * sd + 1;
    let fnb = fresh_noise_bound(p, n, sd);
    assert(a >= 0) by (nonlinear_arith)
        requires
            a == (2 * n) * (2 * sd),
            n >= 1,
            sd >= 1,
    ;
    assert(b >= a) by (nonlinear_arith)
        requires
            b == a * (2 * sd),
            a >= 0,
            sd >= 1,
    ;
    assert(p * inner >= inner) by (nonlinear_arith)
        requires
            p >= 2,
            inner >= 0,
    ;
    assert(inner >= 0);
    assert(fnb == p * inner + p);
    assert(fnb > u128::MAX);
    assert(2 * fnb >= fnb);
}

/// Parameters of the scheme: `s` packing slots, polynomial degree `n == s`,
/// plaintext modulus `p`, coefficient modulus `q`, noise width `std_dev`,
/// and the validated packing data (evaluation points and certified inverses
/// of the Lagrange denominators).
pub struct SHEParameters {
    s: usize,
    n: usize,
    p: u128,
    q: u128,
    std_dev: u64,
    points: Vec<u128>,
    lag_inv: Vec<u128>,
}

impl SHEParameters {
    pub closed spec fn s_spec(&self) -> int {
        self.s as int
    }

    pub closed spec fn n_spec(&self) -> int {
        self.n as int
    }

    pub closed spec fn p_spec(&self) -> int {
        self.p as int
    }

    pub closed spec fn q_spec(&self) -> int {
        self.q as int
    }

    pub closed spec fn std_dev_spec(&self) -> int {
        self.std_dev as int
    }

    /// The packing evaluation points, as integers.
    pub closed spec fn points_spec(&self) -> Seq<int> {
        self.points@.map(|_i: int, v: u128| v as int)
    }

    /// The certified inverses of the Lagrange denominators.
    pub closed spec fn lag_inv_spec(&self) -> Seq<int> {
        self.lag_inv@.map(|_i: int, v: u128| v as int)
    }

    /// Everything startup validation certifies.
    pub open spec fn wf(&self) -> bool {
        &&& self.n_spec() == self.s_spec()
        &&& 1 <= self.s_spec()
        &&& self.s_spec() <= 0x4000_0000_0000
        &&& 8 * self.s_spec() <= usize::MAX
        &&& is_pow2(self.s_spec() as nat)
        &&& 2 <= self.p_spec()
        &&& self.p_spec() % (2 * self.s_spec()) == 1
        &&& 4 * self.p_spec() < self.q_spec()
        &&& self.q_spec() <= modulus_bound()
        &&& 1 <= self.std_dev_spec()
        &&& 2 * self.std_dev_spec() + 1 <= self.p_spec()
        &&& 2 * fresh_noise_bound(self.p_spec(), self.n_spec(), self.std_dev_spec())
            < self.q_spec()
        &&& self.points_spec().len() == self.s_spec()
        &&& self.lag_inv_spec().len() == self.s_spec()
        &&& all_below(self.points_spec(), self.p_spec())
        &&& all_below(self.lag_inv_spec(), self.p_spec())
        &&& forall|i: int|
            0 <= i < self.s_spec() ==> fpow(
                #[trigger] self.points_spec()[i],
                self.n_spec() as nat,
                self.p_spec(),
            ) == self.p_spec() - 1
        &&& forall|i: int|
            0 <= i < self.s_spec() ==> fmul(
                lag_den(self.points_spec(), i, self.p_spec()),
                #[trigger] self.lag_inv_spec()[i],
                self.p_spec(),
            ) == 1
    }

    pub fn get_s(&self) -> (r: usize)
        ensures
            r == self.s_spec(),
    {
        self.s
    }

    pub fn get_n(&self) -> (r: usize)
        ensures
            r == self.n_spec(),
    {
        self.n
    }

    pub fn get_p(&self) -> (r: u128)
        ensures
            r == self.p_spec(),
    {
        self.p
    }

    pub fn get_q(&self) -> (r: u128)
        ensures
            r == self.q_spec(),
    {
        self.q
    }

    pub fn get_std_dev(&self) -> (r: u64)
        ensures
            r == self.std_dev_spec(),
    {
        self.std_dev
    }

    pub fn point_at(&self, i: usize) -> (r: u128)
        requires
            i < self.points_spec().len(),
        ensures
            r == self.points_spec()[i as int],
    {
        self.points[i]
    }

    pub fn lag_inv_at(&self, i: usize) -> (r: u128)
        requires
            i < self.lag_inv_spec().len(),
        ensures
            r == self.lag_inv_spec()[i as int],
    {
        self.lag_inv[i]
    }

    /// Builds and validates the scheme parameters.  Success certifies `wf`
    /// and comes exactly when the size and divisibility checks pass and some
    /// root below `p` is admissible: its power `omega^s` is `-1`, every
    /// derived packing point satisfies `pt^n = -1`, and every Lagrange
    /// denominator is inverted by its Fermat candidate.  (For a prime `p`
    /// with `p = 1 (mod 2s)` such a root exists; primality itself is not
    /// assumed, only checked consequences.)
    pub fn new(s: usize, n: usize, p: u128, q: u128, std_dev: u64) -> (r: Result<
        SHEParameters,
        MpcError,
    >)
        ensures
            match r {
                Ok(sp) => {
                    &&& sp.wf()
                    &&& sp.s_spec() == s
                    &&& sp.n_spec() == n
                    &&& sp.p_spec() == p
                    &&& sp.q_spec() == q
                    &&& sp.std_dev_spec() == std_dev
                },
                Err(e) => e == (MpcError::ParameterInvalid),
            },
            (r is Err) <==> !(size_ok(s as int, n as int, p as int, q as int, std_dev as int)
                && exists|omega: int|
                2 <= omega < p && #[trigger] omega_admissible(
                    omega,
                    s as int,
                    n as int,
                    p as int,
                )),
    {
        if n != s || s == 0 {
            return Err(MpcError::ParameterInvalid);
        }
        if !is_power_of_two(s) {
            return Err(MpcError::ParameterInvalid);
        }
        if (s as u64) > 0x4000_0000_0000u64 {
            return Err(MpcError::ParameterInvalid);
        }
        if (s as u128) * 8 > usize::MAX as u128 {
            return Err(MpcError::ParameterInvalid);
        }
        // the Fermat exponent p - 2 must fit the power routine's word
        if p < 2 || p > 0x1_0000_0000_0000_0001u128 {
            return Err(MpcError::ParameterInvalid);
        }
        let qbound: u128 = 0x8000_0000_0000_0000_0000_0000_0000_0000;
        if q < 2 || q > qbound || p > (q - 1) / 4 {
            return Err(MpcError::ParameterInvalid);
        }
        proof {
            assert(4 * (p as int) < q as int) by (nonlinear_arith)
                requires
                    p as int <= ((q as int) - 1) / 4,
                    q >= 2,
                    p >= 2,
            ;
        }
        if std_dev < 1 || 2 * (std_dev as u128) + 1 > p {
            return Err(MpcError::ParameterInvalid);
        }
        // noise budget: 2 * (p * (2n(2sd)^2 + 2sd + 1) + p) < q, without overflow
        let sd: u128 = std_dev as u128;
        let ghost gfnb = fresh_noise_bound(p as int, n as int, std_dev as int);
        let inner = match (2 * (n as u128)).checked_mul(2 * sd) {
            Some(v) => match v.checked_mul(2 * sd) {
                Some(w) => match w.checked_add(2 * sd + 1) {
                    Some(x) => x,
                    None => {
                        proof {
                            lemma_fnb_large(p as int, n as int, std_dev as int, q as int);
                        }
                        return Err(MpcError::ParameterInvalid);
                    },
                },
                None => {
                    proof {
                        lemma_fnb_large(p as int, n as int, std_dev as int, q as int);
                    }
                    return Err(MpcError::ParameterInvalid);
                },
            },
            None => {
                proof {
                    lemma_fnb_large(p as int, n as int, std_dev as int, q as int);
                }
                return Err(MpcError::ParameterInvalid);
            },
        };
        let bound = match p.checked_mul(inner) {
            Some(v) => match v.checked_add(p) {
                Some(w) => w,
                None => {
                    proof {
                        lemma_fnb_large(p as int, n as int, std_dev as int, q as int);
                    }
                    return Err(MpcError::ParameterInvalid);
                },
            },
            None => {
                proof {
                    lemma_fnb_large(p as int, n as int, std_dev as int, q as int);
                }
                return Err(MpcError::ParameterInvalid);
            },
        };
        if bound >= q / 2 + q % 2 {
            proof {
                vstd::arithmetic::div_mod::lemma_fundamental_div_mod(q as int, 2);
                assert(2 * gfnb >= q);
            }
            return Err(MpcError::ParameterInvalid);
        }
        proof {
            vstd::arithmetic::div_mod::lemma_fundamental_div_mod(q as int, 2);
            assert(2 * gfnb < q);
        }
        let m: u128 = 2 * (s as u128);
        if p % m != 1 {
            return Err(MpcError::ParameterInvalid);
        }
        proof {
            assert(size_ok(s as int, n as int, p as int, q as int, std_dev as int));
        }
        // search for an admissible root of unity
        let mut x: u128 = 2;
        while x < p
            invariant
                2 <= x <= p,
                n == s,
                1 <= s <= 0x4000_0000_0000,
                2 <= p <= 0x1_0000_0000_0000_0001u128,
                size_ok(s as int, n as int, p as int, q as int, std_dev as int),
                forall|w: int| 2 <= w < x ==> !#[trigger] omega_admissible(
                    w,
                    s as int,
                    n as int,
                    p as int,
                ),
            decreases p - x,
        {
            match Self::try_omega(x, s, n, p) {
                Some(built) => {
                    let (points, lag_inv) = built;
                    let r = SHEParameters { s, n, p, q, std_dev, points, lag_inv };
                    proof {
                        let gp = p as int;
                        let pts = omega_points(x as int, s as int, gp);
                        assert(r.points_spec() == pts);
                        assert(all_below(r.points_spec(), r.p_spec()));
                        assert(all_below(r.lag_inv_spec(), r.p_spec()));
                        assert(r.wf());
                        assert(omega_admissible(x as int, s as int, n as int, gp));
                    }
                    return Ok(r);
                },
                None => {
                    x = x + 1;
                },
            }
        }
        proof {
            assert forall|omega: int| 2 <= omega < p implies !#[trigger] omega_admissible(
                omega,
                s as int,
                n as int,
                p as int,
            ) by {}
        }
        Err(MpcError::ParameterInvalid)
    }

    /// Tries one candidate root: builds the packing points and certified
    /// denominator inverses, or reports that the candidate is inadmissible.
    fn try_omega(omega: u128, s: usize, n: usize, p: u128) -> (r: Option<(Vec<u128>, Vec<u128>)>)
        requires
            n == s,
            1 <= s <= 0x4000_0000_0000,
            2 <= p <= 0x1_0000_0000_0000_0001u128,
            omega < p,
        ensures
            match r {
                Some(built) => {
                    let pts = omega_points(omega as int, s as int, p as int);
                    &&& omega_admissible(omega as int, s as int, n as int, p as int)
                    &&& built.0@.len() == s
                    &&& built.1@.len() == s
                    &&& built.0@.map(|_i: int, v: u128| v as int) == pts
                    &&& (forall|i: int| 0 <= i < s ==> built.0@[i] < p)
                    &&& (forall|i: int| 0 <= i < s ==> built.1@[i] < p)
                    &&& (forall|i: int|
                        0 <= i < s ==> fmul(
                            lag_den(pts, i, p as int),
                            #[trigger] built.1@[i] as int,
                            p as int,
                        ) == 1)
                },
                None => !omega_admissible(omega as int, s as int, n as int, p as int),
            },
    {
        let ghost gp = p as int;
        let ghost gpts = omega_points(omega as int, s as int, gp);
        if pow_mod(omega, s as u64, p) != p - 1 {
            return None;
        }
        // the packing points omega^(2i+1), each checked to satisfy pt^n = -1
        let mut points: Vec<u128> = Vec::new();
        let mut i: usize = 0;
        while i < s
            invariant
                i <= s,
                n == s,
                s <= 0x4000_0000_0000,
                2 <= p <= modulus_bound(),
                omega < p,
                gp == p as int,
                gpts == omega_points(omega as int, s as int, gp),
                points@.len() == i,
                forall|k: int| 0 <= k < i ==> points@[k] < p,
                forall|k: int| 0 <= k < i ==> #[trigger] points@[k] as int == gpts[k],
                forall|k: int|
                    0 <= k < i ==> fpow(#[trigger] points@[k] as int, n as nat, gp) == p - 1,
            decreases s - i,
        {
            let e: u64 = 2 * (i as u64) + 1;
            let pt = pow_mod(omega, e, p);
            proof {
                assert(pt as int == gpts[i as int]);
            }
            if pow_mod(pt, n as u64, p) != p - 1 {
                proof {
                    assert(fpow(gpts[i as int], n as nat, gp) != p - 1);
                }
                return None;
            }
            points.push(pt);
            i = i + 1;
        }
        proof {
            assert(points@.map(|_i: int, v: u128| v as int) =~= gpts);
        }
        // Lagrange denominators, inverted by their Fermat candidates and
        // certified by a product check
        let ghost pts = points@.map(|_i: int, v: u128| v as int);
        let mut lag_inv: Vec<u128> = Vec::new();
        let mut i2: usize = 0;
        while i2 < s
            invariant
                i2 <= s,
                2 <= p <= 0x1_0000_0000_0000_0001u128,
                points@.len() == s,
                gp == p as int,
                pts == points@.map(|_i: int, v: u128| v as int),
                pts == gpts,
                gpts == omega_points(omega as int, s as int, gp),
                forall|k: int| 0 <= k < s ==> points@[k] < p,
                lag_inv@.len() == i2,
                forall|k: int| 0 <= k < i2 ==> lag_inv@[k] < p,
                forall|k: int|
                    0 <= k < i2 ==> #[trigger] lag_inv@[k] as int == fpow(
                        lag_den(pts, k, gp),
                        (p - 2) as nat,
                        gp,
                    ),
                forall|k: int|
                    0 <= k < i2 ==> fmul(lag_den(pts, k, gp), #[trigger] lag_inv@[k] as int, gp)
                        == 1,
            decreases s - i2,
        {
            let mut den: u128 = 1 % p;
            proof {
                lemma_mod_bound(1, gp);
            }
            let mut j: usize = 0;
            while j < s
                invariant
                    j <= s,
                    i2 < s,
                    2 <= p <= modulus_bound(),
                    points@.len() == s,
                    gp == p as int,
                    pts == points@.map(|_i: int, v: u128| v as int),
                    forall|k: int| 0 <= k < s ==> points@[k] < p,
                    den < p,
                    den as int == den_prefix(pts, i2 as int, gp, j as nat),
                decreases s - j,
            {
                if j != i2 {
                    let diff = sub_mod(points[i2], points[j], p);
                    den = mul_mod(den, diff, p);
                }
                j = j + 1;
            }
            let cand = pow_mod(den, (p - 2) as u64, p);
            let check = mul_mod(den, cand, p);
            proof {
                assert(den as int == lag_den(pts, i2 as int, gp));
            }
            if check != 1 {
                proof {
                    assert(fmul(
                        lag_den(gpts, i2 as int, gp),
                        fpow(lag_den(gpts, i2 as int, gp), (p - 2) as nat, gp),
                        gp,
                    ) != 1);
                }
                return None;
            }
            lag_inv.push(cand);
            i2 = i2 + 1;
        }
        proof {
            assert forall|i: int| 0 <= i < s implies fpow(#[trigger] gpts[i], n as nat, gp) == p
                - 1 by {
                assert(points@[i] as int == gpts[i]);
            }
            assert(fpow(omega as int, s as nat, gp) == p - 1);
            assert forall|i: int| 0 <= i < s implies fmul(
                #[trigger] lag_den(gpts, i, gp),
                fpow(lag_den(gpts, i, gp), (p - 2) as nat, gp),
                gp,
            ) == 1 by {
                assert(lag_inv@[i] as int == fpow(lag_den(pts, i, gp), (p - 2) as nat, gp));
                assert(fmul(lag_den(pts, i, gp), lag_inv@[i] as int, gp) == 1);
            }
            assert(omega_admissible(omega as int, s as int, n as int, gp));
        }
        Some((points, lag_inv))
    }
}

/// Whether `n` is a power of two (matching the spec-level `is_pow2`).
fn is_power_of_two(n: usize) -> (r: bool)
    ensures
        r == is_pow2(n as nat),
{
    if n == 0 {
        return false;
    }
    let mut m: usize = n;
    while m > 1 && m % 2 == 0
        invariant
            1 <= m <= n,
            is_pow2(n as nat) == is_pow2(m as nat),
        decreases m,
    {
        m = m / 2;
    }
    m == 1
}

/// The packing evaluation points: the odd powers `omega^(2i+1)` of the
/// primitive `2s`-th root of unity found at validation.
pub fn cyclotomic_moduli(she_params: &SHEParameters, length: usize) -> (r: Vec<u128>)
    requires
        she_params.wf(),
        length <= she_params.s_spec(),
    ensures
        r@.len() == length,
        forall|i: int| 0 <= i < length ==> r@[i] as int == she_params.points_spec()[i],
{
    let mut out: Vec<u128> = Vec::new();
    let mut i: usize = 0;
    while i < length
        invariant
            i <= length,
            she_params.wf(),
            length <= she_params.points_spec().len(),
            out@.len() == i,
            forall|k: int| 0 <= k < i ==> out@[k] as int == she_params.points_spec()[k],
        decreases length - i,
    {
        out.push(she_params.point_at(i));
        i = i + 1;
    }
    out
}

/// Horner evaluation of the polynomial (low coefficient first) at `variable`,
/// over F_p.
pub fn substitute(polynomial: &Vec<u128>, variable: u128, p: u128) -> (r: u128)
    requires
        2 <= p <= modulus_bound(),
        variable < p,
        forall|i: int| 0 <= i < polynomial@.len() ==> polynomial@[i] < p,
    ensures
        r as int == eval_at(polynomial@.map(|_i: int, v: u128| v as int), variable as int, p as int),
        r < p,
{
    let ghost c = polynomial@.map(|_i: int, v: u128| v as int);
    let len = polynomial.len();
    let mut acc: u128 = 0;
    let mut i: usize = len;
    proof {
        assert(c.subrange(len as int, len as int) =~= Seq::<int>::empty());
    }
    while i > 0
        invariant
            i <= len,
            len == c.len(),
            2 <= p <= modulus_bound(),
            variable < p,
            c == polynomial@.map(|_i: int, v: u128| v as int),
            forall|k: int| 0 <= k < len ==> polynomial@[k] < p,
            acc < p,
            acc as int == eval_at(c.subrange(i as int, len as int), variable as int, p as int),
        decreases i,
    {
        i = i - 1;
        let t = mul_mod(variable, acc, p);
        proof {
            assert(polynomial@[i as int] as int == c[i as int]);
        }
        let old_acc: u128 = acc;
        acc = add_mod(polynomial[i], t, p);
        proof {
            let tail = c.subrange(i as int + 1, len as int);
            assert(c.subrange(i as int, len as int).subrange(
                1,
                c.subrange(i as int, len as int).len() as int,
            ) =~= tail);
            assert(c.subrange(i as int, len as int)[0] == c[i as int]);
            lemma_add_mod_noop_right(
                c[i as int],
                (variable as int) * eval_at(tail, variable as int, p as int),
                p as int,
            );
        }
    }
    proof {
        assert(c.subrange(0, len as int) =~= c);
    }
    acc
}

/// Secret key: a short ring element sampled from the noise distribution.
pub struct SecretKey {
    pub s: Encodedtext,
}

impl Clone for SecretKey {
    fn clone(&self) -> (r: Self)
        ensures
            r.s.coeffs() == self.s.coeffs(),
            r.s.q_spec() == self.s.q_spec(),
            r.s.wf() == self.s.wf(),
    {
        Self { s: self.s.clone() }
    }
}

/// Public key `(a, b)` with `b = a * s + p * e`.
pub struct PublicKey {
    pub a: Encodedtext,
    pub b: Encodedtext,
}

impl Clone for PublicKey {
    fn clone(&self) -> (r: Self)
        ensures
            r.a.coeffs() == self.a.coeffs(),
            r.b.coeffs() == self.b.coeffs(),
            r.a.q_spec() == self.a.q_spec(),
            r.b.q_spec() == self.b.q_spec(),
            r.a.wf() == self.a.wf(),
            r.b.wf() == self.b.wf(),
    {
        Self { a: self.a.clone(), b: self.b.clone() }
    }
}

impl SecretKey {
    pub fn new(sk: Encodedtext) -> (r: Self)
        ensures
            r.s == sk,
    {
        Self { s: sk }
    }

    /// Samples a short secret key from the noise distribution.
    pub fn generate(she_params: &SHEParameters, rng: &mut rand::rngs::StdRng) -> (r: Self)
        requires
            she_params.wf(),
        ensures
            r.s.wf(),
            r.s.q_spec() == she_params.q_spec(),
            r.s.coeffs().len() == she_params.n_spec(),
            forall|i: int|
                0 <= i < r.s.coeffs().len() ==> #[trigger] r.s.coeffs()[i] <= 2
                    * she_params.std_dev_spec(),
    {
        let n = she_params.get_n();
        let s = get_gaussian(she_params, n, rng);
        Self { s }
    }

    /// Derives the public key `(a, b = a * s + p * e)` with uniform `a` and
    /// fresh noise `e`.
    pub fn public_key_gen(&self, she_params: &SHEParameters, rng: &mut rand::rngs::StdRng) -> (r:
        PublicKey)
        requires
            she_params.wf(),
            self.s.wf(),
            self.s.q_spec() == she_params.q_spec(),
            self.s.coeffs().len() == she_params.n_spec(),
        ensures
            r.a.wf(),
            r.b.wf(),
            r.a.q_spec() == she_params.q_spec(),
            r.b.q_spec() == she_params.q_spec(),
            r.a.coeffs().len() == she_params.n_spec(),
            r.b.coeffs().len() == she_params.n_spec(),
            exists|e: Seq<int>|
                {
                    &&& e.len() == she_params.n_spec()
                    &&& (forall|i: int|
                        0 <= i < e.len() ==> 0 <= #[trigger] e[i] <= 2
                            * she_params.std_dev_spec())
                    &&& r.b.coeffs() == crate::ring::padd(
                        crate::ring::neg_mul(
                            r.a.coeffs(),
                            self.s.coeffs(),
                            she_params.q_spec(),
                        ),
                        crate::ring::pscale(e, she_params.p_spec(), she_params.q_spec()),
                        she_params.q_spec(),
                    )
                },
    {
        let n = she_params.get_n();
        let a = Encodedtext::rand(n, she_params.get_q(), rng);
        let e = get_gaussian(she_params, n, rng);
        let p = she_params.get_p();
        let prod = a.mul(&self.s);
        let scaled = e.scale_res(p);
        let b = prod.add(&scaled);
        proof {
            let q = she_params.q_spec();
            assert(crate::ring::pad_seq(prod.coeffs(), prod.coeffs().len() as nat)
                =~= prod.coeffs());
            assert(crate::ring::pad_seq(scaled.coeffs(), scaled.coeffs().len() as nat)
                =~= scaled.coeffs());
            assert(b.coeffs() == crate::ring::padd(prod.coeffs(), scaled.coeffs(), q));
            let we = e.coeffs();
            assert(crate::ring::pscale(we, she_params.p_spec(), q) == scaled.coeffs());
            assert(b.coeffs() == crate::ring::padd(
                crate::ring::neg_mul(a.coeffs(), self.s.coeffs(), q),
                crate::ring::pscale(we, she_params.p_spec(), q),
                q,
            ));
        }
        PublicKey { a, b }
    }
}

impl PublicKey {
    pub fn new(a: Encodedtext, b: Encodedtext) -> (r: Self)
        ensures
            r.a == a,
            r.b == b,
    {
        Self { a, b }
    }
}

/// Bounded noise: `dimension` coefficients, each drawn uniformly from
/// `[0, 2 * std_dev]` in place of the folded Gaussian magnitude (floating
/// point is out of reach here, and only the magnitude bound matters for
/// the noise budget; the bound is what the contract states).
pub fn get_gaussian(
    she_params: &SHEParameters,
    dimension: usize,
    rng: &mut rand::rngs::StdRng,
) -> (r: Encodedtext)
    requires
        she_params.wf(),
    ensures
        r.wf(),
        r.q_spec() == she_params.q_spec(),
        r.coeffs().len() == dimension,
        forall|i: int|
            0 <= i < r.coeffs().len() ==> #[trigger] r.coeffs()[i] <= 2
                * she_params.std_dev_spec(),
{
    let sd: u128 = she_params.get_std_dev() as u128;
    let bound: u128 = 2 * sd + 1;
    let mut vals: Vec<u128> = Vec::new();
    let mut i: usize = 0;
    while i < dimension
        invariant
            i <= dimension,
            bound == 2 * sd + 1,
            sd == she_params.std_dev_spec(),
            she_params.wf(),
            vals@.len() == i,
            forall|k: int| 0 <= k < i ==> vals@[k] < bound,
        decreases dimension - i,
    {
        let v = gen_below(rng, bound);
        vals.push(v);
        i = i + 1;
    }
    let q = she_params.get_q();
    proof {
        assert(forall|k: int| 0 <= k < vals@.len() ==> vals@[k] < q);
    }
    Encodedtext::new(vals, q)
}

} // verus!
