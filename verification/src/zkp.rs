//! The Chaum-Pedersen engine: group arithmetic and the three
//! sigma-protocol computations.

use vstd::prelude::*;
use crate::arith::{pow_mod, solve_spec, verify_spec, lemma_pow_mod_range, lemma_mod_bound_nat};
use crate::bignum::{big_eq, big_from_u64, big_ge, big_mod, big_modpow, big_mul, big_sub, bigval};
use num_bigint::RandBigInt;
use rand::Rng;

verus! {

/// The domain parameters of the protocol: a prime modulus `p`, the order
/// `q` of the subgroup the generators span, and the two generators.
pub struct ZKP {
    /// Prime modulus of the multiplicative group.
    pub p: num_bigint::BigUint,
    /// Order of the subgroup generated by `alpha` and `beta`.
    pub q: num_bigint::BigUint,
    /// First generator.
    pub alpha: num_bigint::BigUint,
    /// Second generator.
    pub beta: num_bigint::BigUint,
}

/// An ASCII letter or digit, as tokens are made of.
pub open spec fn is_token_char(ch: char) -> bool {
    ||| 48 <= ch as int <= 57
    ||| 65 <= ch as int <= 90
    ||| 97 <= ch as int <= 122
}

/// The numeric values of a parameter set.
pub struct ZkpView {
    pub p: nat,
    pub q: nat,
    pub alpha: nat,
    pub beta: nat,
}

impl View for ZKP {
    type V = ZkpView;

    open spec fn view(&self) -> ZkpView {
        ZkpView {
            p: bigval(self.p),
            q: bigval(self.q),
            alpha: bigval(self.alpha),
            beta: bigval(self.beta),
        }
    }
}

impl ZKP {
    /// The machine-level requirements on the parameters: both moduli are
    /// usable, so no arithmetic below can divide by zero.
    pub open spec fn wf(&self) -> bool {
        &&& self@.p > 0
        &&& self@.q > 0
    }

    /// `n ^ exponent mod modulus`, by fast modular exponentiation.
    pub fn exponentiate(
        n: &num_bigint::BigUint,
        exponent: &num_bigint::BigUint,
        modulus: &num_bigint::BigUint,
    ) -> (r: num_bigint::BigUint)
        requires
            bigval(*modulus) > 0,
        ensures
            bigval(r) == pow_mod(bigval(*n), bigval(*exponent), bigval(*modulus)),
            bigval(r) < bigval(*modulus),
    {
        proof {
            lemma_pow_mod_range(bigval(*n), bigval(*exponent), bigval(*modulus));
        }
        big_modpow(n, exponent, modulus)
    }

    /// The response `s = (k - c*x) mod q`, over unsigned integers.  Since
    /// `c*x` may exceed `k`, the computation branches: the direct remainder
    /// when `k >= c*x`, and otherwise `q` minus the remainder of `c*x - k`,
    /// reduced once more so the response is normalized into `[0, q)`.
    pub fn solve(
        &self,
        k: &num_bigint::BigUint,
        c: &num_bigint::BigUint,
        x: &num_bigint::BigUint,
    ) -> (s: num_bigint::BigUint)
        requires
            self@.q > 0,
        ensures
            bigval(s) == solve_spec(bigval(*k), bigval(*c), bigval(*x), self@.q),
            bigval(s) < self@.q,
    {
        proof {
            crate::arith::lemma_solve_congruence(bigval(*k), bigval(*c), bigval(*x), self@.q);
        }
        let cx = big_mul(c, x);
        if big_ge(k, &cx) {
            let d = big_sub(k, &cx);
            big_mod(&d, &self.q)
        } else {
            let e = big_sub(&cx, k);
            let em = big_mod(&e, &self.q);
            proof {
                lemma_mod_bound_nat(bigval(e), self@.q);
            }
            let d = big_sub(&self.q, &em);
            big_mod(&d, &self.q)
        }
    }

    /// Checks both Schnorr equations: `r1 == alpha^s * y1^c mod p` and
    /// `r2 == beta^s * y2^c mod p`.  Both are required; each alone is only
    /// half the soundness guarantee.
    pub fn verify(
        &self,
        r1: &num_bigint::BigUint,
        r2: &num_bigint::BigUint,
        y1: &num_bigint::BigUint,
        y2: &num_bigint::BigUint,
        c: &num_bigint::BigUint,
        s: &num_bigint::BigUint,
    ) -> (ok: bool)
        requires
            self@.p > 0,
        ensures
            ok == verify_spec(
                bigval(*r1),
                bigval(*r2),
                bigval(*y1),
                bigval(*y2),
                self@.alpha,
                self@.beta,
                bigval(*c),
                bigval(*s),
                self@.p,
            ),
    {
        let a1 = big_modpow(&self.alpha, s, &self.p);
        let t1 = big_modpow(y1, c, &self.p);
        let m1 = big_mul(&a1, &t1);
        let v1 = big_mod(&m1, &self.p);
        let cond1 = big_eq(r1, &v1);
        let a2 = big_modpow(&self.beta, s, &self.p);
        let t2 = big_modpow(y2, c, &self.p);
        let m2 = big_mul(&a2, &t2);
        let v2 = big_mod(&m2, &self.p);
        let cond2 = big_eq(r2, &v2);
        cond1 && cond2
    }

    /// A uniform random number in `[0, bound)`.
    ///
    /// Relies on `num_bigint::RandBigInt::gen_biguint_below` with
    /// `rand::thread_rng`, a cryptographically strong generator; the call
    /// panics on a zero bound, so a positive bound is required.  The result
    /// is random: only its range is promised.
    #[verifier::external_body]
    pub fn generate_random_number_below(bound: &num_bigint::BigUint) -> (r: num_bigint::BigUint)
        requires
            bigval(*bound) > 0,
        ensures
            bigval(r) < bigval(*bound),
    {
        let mut rng = rand::thread_rng();
        rng.gen_biguint_below(bound)
    }

    /// Whether the parameters can be used at all: both moduli nonzero.
    /// Callers gate `new`, `solve` and `verify` on this.
    pub fn is_usable(&self) -> (ok: bool)
        ensures
            ok == self.wf(),
    {
        let zero = big_from_u64(0);
        let p_zero = big_eq(&self.p, &zero);
        let q_zero = big_eq(&self.q, &zero);
        !p_zero && !q_zero
    }

    /// The prover's secret derived from a credential: the credential's
    /// bytes read as one big-endian number, reduced into `[0, q)` so that
    /// it is a valid exponent of the subgroup.
    pub fn derive_secret(credential: &Vec<u8>, q: &num_bigint::BigUint) -> (x:
        num_bigint::BigUint)
        requires
            bigval(*q) > 0,
        ensures
            bigval(x) == crate::bignum::be_val(credential@) % bigval(*q),
            bigval(x) < bigval(*q),
    {
        let n = crate::bignum::big_from_bytes_be(credential);
        proof {
            lemma_mod_bound_nat(bigval(n), bigval(*q));
        }
        big_mod(&n, q)
    }

    /// An unpredictable token of `len` ASCII letters and digits, for
    /// challenge handles and session identifiers.
    pub fn generate_random_string(len: usize) -> (r: String)
        ensures
            r@.len() == len as nat,
            forall|j: int| 0 <= j < r@.len() ==> is_token_char(#[trigger] r@[j]),
    {
        let mut bytes: Vec<u8> = Vec::new();
        let mut i: usize = 0;
        while i < len
            invariant
                i <= len,
                bytes@.len() == i as nat,
                forall|j: int|
                    0 <= j < bytes@.len() ==> is_token_char(#[trigger] bytes@[j] as char),
            decreases len - i,
        {
            let b = sample_alphanumeric_byte();
            bytes.push(b);
            i += 1;
        }
        ascii_string_from_bytes(bytes)
    }
}

/// Relies on rand's `Alphanumeric` distribution: every sampled byte is an
/// ASCII letter or digit, drawn with a cryptographically strong generator.
#[verifier::external_body]
fn sample_alphanumeric_byte() -> (b: u8)
    ensures
        is_token_char(b as char),
{
    rand::thread_rng().sample(rand::distributions::Alphanumeric)
}

/// Relies on `String::from_utf8_lossy`: on ASCII input it keeps every byte
/// as the character with the same code, so the length is preserved.
#[verifier::external_body]
fn ascii_string_from_bytes(bytes: Vec<u8>) -> (r: String)
    requires
        forall|j: int| 0 <= j < bytes@.len() ==> bytes@[j] < 128,
    ensures
        r@.len() == bytes@.len(),
        forall|j: int| 0 <= j < bytes@.len() ==> r@[j] == bytes@[j] as char,
{
    String::from_utf8_lossy(&bytes).into_owned()
}

} // verus!
