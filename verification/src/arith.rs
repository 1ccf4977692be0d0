//! The modular arithmetic of the Chaum-Pedersen protocol, and its laws.
//!
//! Everything here is ghost: the spec functions give the meaning of the
//! executable engine in `zkp`, and the lemmas prove the protocol's
//! completeness and the range of the response.

use vstd::prelude::*;
use vstd::arithmetic::power::{
    lemma0_pow, lemma1_pow, lemma_pow0, lemma_pow_adds, lemma_pow_mod_noop, lemma_pow_multiplies,
    lemma_pow_positive, pow,
};
use vstd::arithmetic::div_mod::{
    lemma_add_mod_noop_right, lemma_div_pos_is_pos, lemma_fundamental_div_mod, lemma_mod_bound,
    lemma_mod_multiples_vanish, lemma_mul_mod_noop, lemma_mul_mod_noop_left,
    lemma_mul_mod_noop_right, lemma_small_mod, lemma_sub_mod_noop,
};

verus! {

/// `base ^ exponent mod modulus`, over the naturals.
pub open spec fn pow_mod(base: nat, exponent: nat, modulus: nat) -> nat
    recommends
        modulus > 0,
{
    (pow(base as int, exponent) % (modulus as int)) as nat
}

/// The response of the proof engine: `(k - c*x) mod q`, computed over
/// unsigned integers by a two-branch rule.  When `c*x` exceeds `k`, the
/// difference is reduced, subtracted from `q`, and reduced once more, so
/// that both branches land in `[0, q)`.
pub open spec fn solve_spec(k: nat, c: nat, x: nat, q: nat) -> nat
    recommends
        q > 0,
{
    if k >= c * x {
        ((k - c * x) % (q as int)) as nat
    } else {
        ((q - (c * x - k) % (q as int)) % (q as int)) as nat
    }
}

/// One Schnorr equation: the commitment `r` equals `g^s * y^c mod p`.
pub open spec fn schnorr_check(r: nat, g: nat, y: nat, c: nat, s: nat, p: nat) -> bool
    recommends
        p > 0,
{
    r == (pow_mod(g, s, p) * pow_mod(y, c, p)) % p
}

/// Proof verification: both Schnorr equations must hold, one under each
/// generator.  Checking only one would discard half the soundness guarantee.
pub open spec fn verify_spec(
    r1: nat,
    r2: nat,
    y1: nat,
    y2: nat,
    alpha: nat,
    beta: nat,
    c: nat,
    s: nat,
    p: nat,
) -> bool {
    &&& schnorr_check(r1, alpha, y1, c, s, p)
    &&& schnorr_check(r2, beta, y2, c, s, p)
}

/// The subgroup invariant of the domain parameters: `alpha` and `beta`
/// generate subgroups of order `q` in the multiplicative group mod `p`,
/// and `q` divides `p - 1`.
pub open spec fn domain_wf(p: nat, q: nat, alpha: nat, beta: nat) -> bool {
    &&& p > 1
    &&& q > 0
    &&& pow_mod(alpha, q, p) == 1
    &&& pow_mod(beta, q, p) == 1
    &&& (p - 1) % (q as int) == 0
}

/// A remainder of naturals is below the (positive) divisor.
pub proof fn lemma_mod_bound_nat(x: nat, m: nat)
    requires
        m > 0,
    ensures
        x % m < m,
{
    lemma_mod_bound(x as int, m as int);
}

/// A power of a natural number is nonnegative.
proof fn lemma_pow_nat_nonneg(b: nat, e: nat)
    ensures
        pow(b as int, e) >= 0,
{
    if b == 0 {
        if e == 0 {
            lemma_pow0(b as int);
        } else {
            lemma0_pow(e);
        }
    } else {
        lemma_pow_positive(b as int, e);
    }
}

/// `pow_mod` lies in `[0, modulus)` and agrees with the integer-level value.
pub proof fn lemma_pow_mod_range(b: nat, e: nat, m: nat)
    requires
        m > 0,
    ensures
        pow_mod(b, e, m) < m,
        pow_mod(b, e, m) == pow(b as int, e) % (m as int),
{
    lemma_pow_nat_nonneg(b, e);
    lemma_mod_bound(pow(b as int, e), m as int);
}

/// Reducing the exponent modulo `q` does not change the power modulo `p`,
/// when the base satisfies `g^q ≡ 1 (mod p)`.
proof fn lemma_pow_mod_reduce(g: nat, a: nat, q: nat, p: nat)
    requires
        p > 1,
        q > 0,
        pow_mod(g, q, p) == 1,
    ensures
        pow_mod(g, a, p) == pow_mod(g, a % q, p),
{
    let gi = g as int;
    let pi = p as int;
    let qi = q as int;
    let t = a as int / qi;
    let r = a as int % qi;
    lemma_fundamental_div_mod(a as int, qi);
    lemma_mod_bound(a as int, qi);
    lemma_div_pos_is_pos(a as int, qi);
    assert(a == q * (t as nat) + (r as nat));
    lemma_pow_adds(gi, (q * (t as nat)) as nat, r as nat);
    lemma_pow_multiplies(gi, q, t as nat);
    assert(pow(gi, a) == pow(pow(gi, q), t as nat) * pow(gi, r as nat));
    // The first factor is 1 modulo p.
    lemma_pow_nat_nonneg(g, q);
    lemma_mod_bound(pow(gi, q), pi);
    lemma_pow_mod_noop(pow(gi, q), t as nat, pi);
    assert(pow(gi, q) % pi == 1);
    lemma1_pow(t as nat);
    lemma_small_mod(1, p);
    assert(pow(pow(gi, q), t as nat) % pi == 1);
    lemma_mul_mod_noop_left(pow(pow(gi, q), t as nat), pow(gi, r as nat), pi);
    assert(pow(gi, a) % pi == (1 * pow(gi, r as nat)) % pi);
}

/// Congruent exponents give the same power modulo `p`, when the base
/// satisfies `g^q ≡ 1 (mod p)`.
pub proof fn lemma_pow_mod_congruent(g: nat, a: nat, b: nat, q: nat, p: nat)
    requires
        p > 1,
        q > 0,
        pow_mod(g, q, p) == 1,
        a % q == b % q,
    ensures
        pow_mod(g, a, p) == pow_mod(g, b, p),
{
    lemma_pow_mod_reduce(g, a, q, p);
    lemma_pow_mod_reduce(g, b, q, p);
}

/// The response is congruent to `k - c*x` modulo `q`: adding `c*x` back
/// gives `k` again, modulo `q`.  The response lies in `[0, q)`.
pub proof fn lemma_solve_congruence(k: nat, c: nat, x: nat, q: nat)
    requires
        q > 0,
    ensures
        ((solve_spec(k, c, x, q) + c * x) as int) % (q as int) == (k as int) % (q as int),
        solve_spec(k, c, x, q) < q,
{
    let qi = q as int;
    let cx = (c * x) as int;
    let ki = k as int;
    if k >= c * x {
        let d = ki - cx;
        lemma_mod_bound(d, qi);
        let s = (d % qi) as nat;
        lemma_add_mod_noop_right(cx, d, qi);
        assert((cx + d % qi) % qi == (cx + d) % qi);
        assert(((s + c * x) as int) % qi == ki % qi);
    } else {
        let e = cx - ki;
        lemma_mod_bound(e, qi);
        let em = e % qi;
        let s0 = qi - em;
        lemma_fundamental_div_mod(e, qi);
        lemma_div_pos_is_pos(e, qi);
        assert(e - em == qi * (e / qi));
        assert(s0 + cx == ki + qi * (1 + e / qi)) by {
            assert(s0 + cx == qi - em + ki + e);
            assert(qi * (1 + e / qi) == qi + qi * (e / qi)) by (nonlinear_arith);
        }
        lemma_mod_multiples_vanish(1 + e / qi, ki, qi);
        assert((s0 + cx) % qi == ki % qi);
        // the final reduction keeps the congruence and lands in [0, q)
        let s = (s0 % qi) as nat;
        lemma_mod_bound(s0, qi);
        lemma_add_mod_noop_right(cx, s0, qi);
        assert((cx + s0 % qi) % qi == (cx + s0) % qi);
        assert(((s + c * x) as int) % qi == ki % qi);
    }
}

/// The response lies in `[0, q)`, whichever branch computes it: the
/// direct branch is a plain remainder, and the borrow branch is reduced
/// once more after the subtraction from `q`.
pub proof fn lemma_solve_in_range(k: nat, c: nat, x: nat, q: nat)
    requires
        q > 0,
    ensures
        solve_spec(k, c, x, q) < q,
{
    let qi = q as int;
    if k >= c * x {
        lemma_mod_bound(k - c * x, qi);
    } else {
        lemma_mod_bound(c * x - k, qi);
        lemma_mod_bound(qi - (c * x - k) % qi, qi);
    }
}

/// The left side of a Schnorr check collapses to a single power: against
/// the public value `g^x mod p`, the checked product `g^s * (g^x)^c mod p`
/// equals `g^(s + x*c) mod p`.
proof fn lemma_schnorr_equation(g: nat, x: nat, c: nat, s: nat, p: nat)
    requires
        p > 1,
    ensures
        (pow_mod(g, s, p) * pow_mod(pow_mod(g, x, p), c, p)) % p == pow_mod(
            g,
            (s + x * c) as nat,
            p,
        ),
{
    let gi = g as int;
    let pi = p as int;
    let y = pow_mod(g, x, p);
    // y^c mod p == g^(x*c) mod p
    lemma_pow_mod_range(g, x, p);
    lemma_pow_mod_noop(pow(gi, x), c, pi);
    lemma_pow_multiplies(gi, x, c);
    assert(pow_mod(y, c, p) == pow_mod(g, x * c, p)) by {
        lemma_pow_nat_nonneg(g, x * c);
        lemma_mod_bound(pow(gi, (x * c) as nat), pi);
        lemma_pow_nat_nonneg(y, c);
        lemma_mod_bound(pow(y as int, c), pi);
    }
    // g^s * g^(x*c) mod p == g^(s + x*c) mod p
    lemma_pow_mod_range(g, s, p);
    lemma_pow_mod_range(g, x * c, p);
    lemma_mul_mod_noop(pow(gi, s), pow(gi, (x * c) as nat), pi);
    lemma_pow_adds(gi, s, (x * c) as nat);
    assert((pow_mod(g, s, p) * pow_mod(g, x * c, p)) % p == pow_mod(g, (s + x * c) as nat, p)) by {
        lemma_pow_nat_nonneg(g, (s + x * c) as nat);
        lemma_mod_bound(pow(gi, (s + x * c) as nat), pi);
    }
}

/// Completeness of one Schnorr equation: an honest commitment `g^k`,
/// public value `g^x` and response `solve(k, c, x, q)` satisfy the check,
/// for every challenge `c`.
proof fn lemma_schnorr_complete(g: nat, x: nat, k: nat, c: nat, q: nat, p: nat)
    requires
        p > 1,
        q > 0,
        pow_mod(g, q, p) == 1,
    ensures
        schnorr_check(pow_mod(g, k, p), g, pow_mod(g, x, p), c, solve_spec(k, c, x, q), p),
{
    let s = solve_spec(k, c, x, q);
    lemma_schnorr_equation(g, x, c, s, p);
    // the exponent is congruent to k modulo q
    lemma_solve_congruence(k, c, x, q);
    assert(((s + x * c) as nat) % q == k % q) by {
        assert(x * c == c * x) by (nonlinear_arith);
    }
    lemma_pow_mod_congruent(g, (s + x * c) as nat, k, q, p);
}

/// `g` generates a subgroup of order exactly `q` modulo `p`: `g^q ≡ 1`,
/// and the powers of `g` below `q` are pairwise distinct — a generator in
/// the strict sense the data model requires.
pub open spec fn generates_order(g: nat, q: nat, p: nat) -> bool {
    &&& pow_mod(g, q, p) == 1
    &&& forall|a: nat, b: nat|
        a < b < q ==> #[trigger] pow_mod(g, a, p) != #[trigger] pow_mod(g, b, p)
}

/// Two exponents giving the same power of an order-`q` generator are
/// congruent modulo `q`.
proof fn lemma_pow_mod_injective(g: nat, q: nat, p: nat, a: nat, b: nat)
    requires
        p > 1,
        q > 0,
        generates_order(g, q, p),
        pow_mod(g, a, p) == pow_mod(g, b, p),
    ensures
        a % q == b % q,
{
    lemma_pow_mod_reduce(g, a, q, p);
    lemma_pow_mod_reduce(g, b, q, p);
    let ar = a % q;
    let br = b % q;
    lemma_mod_bound_nat(a, q);
    lemma_mod_bound_nat(b, q);
    if ar != br {
        if ar < br {
            assert(pow_mod(g, ar, p) != pow_mod(g, br, p));
        } else {
            assert(pow_mod(g, br, p) != pow_mod(g, ar, p));
        }
        assert(false);
    }
}

/// Soundness core of one Schnorr equation: against honest values `g^k`
/// and `g^x`, a response built by `solve` from a secret `x2` fails the
/// check whenever `c*x2` and `c*x` fall in different residue classes
/// modulo `q`.
proof fn lemma_schnorr_sound(g: nat, q: nat, p: nat, x: nat, x2: nat, k: nat, c: nat)
    requires
        p > 1,
        q > 0,
        generates_order(g, q, p),
        (c * x) % q != (c * x2) % q,
    ensures
        !schnorr_check(pow_mod(g, k, p), g, pow_mod(g, x, p), c, solve_spec(k, c, x2, q), p),
{
    let s = solve_spec(k, c, x2, q);
    if schnorr_check(pow_mod(g, k, p), g, pow_mod(g, x, p), c, s, p) {
        lemma_schnorr_equation(g, x, c, s, p);
        assert(pow_mod(g, k, p) == pow_mod(g, (s + x * c) as nat, p));
        lemma_pow_mod_injective(g, q, p, k, (s + x * c) as nat);
        lemma_solve_congruence(k, c, x2, q);
        let qi = q as int;
        let si = s as int;
        let cx = (c * x) as int;
        let cx2 = (c * x2) as int;
        assert(x * c == c * x) by (nonlinear_arith);
        assert(x2 * c == c * x2) by (nonlinear_arith);
        assert((si + cx) % qi == (si + cx2) % qi);
        lemma_sub_mod_noop(si + cx, si, qi);
        lemma_sub_mod_noop(si + cx2, si, qi);
        assert(cx % qi == cx2 % qi);
        assert(false);
    }
}

/// Statistical soundness, deterministic core: with a first generator of
/// order exactly `q`, a proof built by `solve` from a wrong secret `x2`
/// fails verification against honest values for `x`, for every challenge
/// `c` whose product with the two secrets differs modulo `q`.  Only the
/// exceptional challenges escape — when `q` is prime and `x, x2 < q` are
/// distinct, exactly the single class `c ≡ 0`, a fraction `1/q` of all
/// challenges.
pub proof fn lemma_soundness(
    p: nat,
    q: nat,
    alpha: nat,
    beta: nat,
    x: nat,
    x2: nat,
    k: nat,
    c: nat,
)
    requires
        p > 1,
        q > 0,
        generates_order(alpha, q, p),
        (c * x) % q != (c * x2) % q,
    ensures
        !verify_spec(
            pow_mod(alpha, k, p),
            pow_mod(beta, k, p),
            pow_mod(alpha, x, p),
            pow_mod(beta, x, p),
            alpha,
            beta,
            c,
            solve_spec(k, c, x2, q),
            p,
        ),
{
    lemma_schnorr_sound(alpha, q, p, x, x2, k, c);
}

/// Completeness of the protocol: for all domain parameters satisfying the
/// subgroup invariant and all `x`, `k` and `c`, an honest prover's
/// commitments `(alpha^k, beta^k)`, public values `(alpha^x, beta^x)` and
/// response `solve(k, c, x, q)` pass verification.
pub proof fn lemma_completeness(p: nat, q: nat, alpha: nat, beta: nat, x: nat, k: nat, c: nat)
    requires
        domain_wf(p, q, alpha, beta),
    ensures
        verify_spec(
            pow_mod(alpha, k, p),
            pow_mod(beta, k, p),
            pow_mod(alpha, x, p),
            pow_mod(beta, x, p),
            alpha,
            beta,
            c,
            solve_spec(k, c, x, q),
            p,
        ),
{
    lemma_schnorr_complete(alpha, x, k, c, q, p);
    lemma_schnorr_complete(beta, x, k, c, q, p);
}

/// `n` is prime: greater than one, with no divisor strictly between one
/// and itself.
pub open spec fn is_prime(n: nat) -> bool {
    &&& n > 1
    &&& forall|e: nat| 1 < e < n ==> #[trigger] (n % e) != 0
}

/// A prime has no zero divisors: a product of two factors from `(0, q)`
/// is never a multiple of `q`.  Proved by descent: a counterexample `c`
/// yields the smaller counterexample `q % c`.
proof fn lemma_prime_no_zero_divisors(q: nat, c: nat, d: nat)
    requires
        is_prime(q),
        0 < c < q,
        0 < d < q,
    ensures
        (c * d) % q != 0,
    decreases c,
{
    let qi = q as int;
    let ci = c as int;
    let di = d as int;
    if (c * d) % q == 0 {
        if c == 1 {
            assert(c * d == d);
            lemma_small_mod(d, q);
            assert(false);
        } else {
            let t = q / c;
            let r = q % c;
            let ti = t as int;
            let ri = r as int;
            lemma_fundamental_div_mod(qi, ci);
            lemma_mod_bound(qi, ci);
            if r == 0 {
                // c would divide the prime q
                assert(q % c != 0);
                assert(false);
            } else {
                assert(ri * di == qi * di - ti * (ci * di)) by (nonlinear_arith)
                    requires
                        qi == ci * ti + ri,
                ;
                assert((ci * di) % qi == 0);
                lemma_small_mod(0, q);
                lemma_mul_mod_noop_right(ti, ci * di, qi);
                assert(ti * ((ci * di) % qi) == 0);
                assert((ti * (ci * di)) % qi == 0);
                lemma_mod_multiples_vanish(di, 0, qi);
                assert((qi * di) % qi == 0);
                lemma_sub_mod_noop(qi * di, ti * (ci * di), qi);
                assert((ri * di) % qi == 0);
                lemma_prime_no_zero_divisors(q, r, d);
                assert(false);
            }
        }
    }
}

/// Statistical soundness for a prime subgroup order: a proof built by
/// `solve` from a wrong secret fails verification for every nonzero
/// challenge.  Of the `q` possible challenges only `c = 0` escapes — the
/// probability bound of one in `q` over a uniform challenge.
pub proof fn lemma_soundness_prime(
    p: nat,
    q: nat,
    alpha: nat,
    beta: nat,
    x: nat,
    x2: nat,
    k: nat,
    c: nat,
)
    requires
        p > 1,
        is_prime(q),
        generates_order(alpha, q, p),
        x < q,
        x2 < q,
        x != x2,
        0 < c < q,
    ensures
        !verify_spec(
            pow_mod(alpha, k, p),
            pow_mod(beta, k, p),
            pow_mod(alpha, x, p),
            pow_mod(beta, x, p),
            alpha,
            beta,
            c,
            solve_spec(k, c, x2, q),
            p,
        ),
{
    let qi = q as int;
    assert((c * x) % q != (c * x2) % q) by {
        if (c * x) % q == (c * x2) % q {
            lemma_small_mod(0, q);
            if x >= x2 {
                let d = (x - x2) as nat;
                lemma_sub_mod_noop((c * x) as int, (c * x2) as int, qi);
                assert(((c * x) as int - (c * x2) as int) % qi == 0);
                assert(c * x - c * x2 == c * d) by (nonlinear_arith)
                    requires
                        d == x - x2,
                ;
                lemma_prime_no_zero_divisors(q, c, d);
            } else {
                let d = (x2 - x) as nat;
                lemma_sub_mod_noop((c * x2) as int, (c * x) as int, qi);
                assert(((c * x2) as int - (c * x) as int) % qi == 0);
                assert(c * x2 - c * x == c * d) by (nonlinear_arith)
                    requires
                        d == x2 - x,
                ;
                lemma_prime_no_zero_divisors(q, c, d);
            }
            assert(false);
        }
    }
    lemma_soundness(p, q, alpha, beta, x, x2, k, c);
}

} // verus!
