use num_bigint::BigUint;
use zkp_chaum_pedersen::ZKP;

#[test]
fn test_toy_example() {
    let _alpha: BigUint = BigUint::from(4u32);
    let beta: BigUint = BigUint::from(9u32);
    let p: BigUint = BigUint::from(23u32);
    let q: BigUint = BigUint::from(11u32);
    let zkp = ZKP {
        p: p.clone(),
        q: q.clone(),
        alpha: _alpha.clone(),
        beta: beta.clone(),
    };

    let x: BigUint = BigUint::from(6u32);
    let k: BigUint = BigUint::from(7u32);
    let c: BigUint = BigUint::from(4u32);

    let y1 = ZKP::exponentiate(&_alpha, &x, &p);
    let y2 = ZKP::exponentiate(&beta, &x, &p);

    assert_eq!(y1, BigUint::from(2u32));
    assert_eq!(y2, BigUint::from(3u32));

    let r1 = ZKP::exponentiate(&_alpha, &k, &p);
    let r2 = ZKP::exponentiate(&beta, &k, &p);
    assert_eq!(r1, BigUint::from(8u32));
    assert_eq!(r2, BigUint::from(4u32));

    let s: BigUint = zkp.solve(&k, &c, &x);
    assert_eq!(s, BigUint::from(5u32));

    let result = zkp.verify(&r1, &r2, &y1, &y2, &c, &s);
    assert!(result);

    // Man-in-the-middle
    let x_fake = BigUint::from(7u32);
    let s_fake: BigUint = zkp.solve(&k, &c, &x_fake);
    let result_fake = zkp.verify(&r1, &r2, &y1, &y2, &c, &s_fake);
    assert!(!result_fake);
}

#[test]
fn test_toy_example_with_random_numbers() {
    let _alpha: BigUint = BigUint::from(4u32);
    let beta: BigUint = BigUint::from(9u32);
    let p: BigUint = BigUint::from(23u32);
    let q: BigUint = BigUint::from(11u32);

    let zkp = ZKP {
        p: p.clone(),
        q: q.clone(),
        alpha: _alpha.clone(),
        beta: beta.clone(),
    };

    let x: BigUint = BigUint::from(6u32);
    let k: BigUint = ZKP::generate_random_number_below(&q);
    let c: BigUint = ZKP::generate_random_number_below(&q);

    let y1 = ZKP::exponentiate(&_alpha, &x, &p);
    let y2 = ZKP::exponentiate(&beta, &x, &p);
    let r1 = ZKP::exponentiate(&_alpha, &k, &p);
    let r2 = ZKP::exponentiate(&beta, &k, &p);
    let s: BigUint = zkp.solve(&k, &c, &x);

    let result = zkp.verify(&r1, &r2, &y1, &y2, &c, &s);
    assert!(result);
}

fn toy_zkp() -> ZKP {
    ZKP {
        p: BigUint::from(23u32),
        q: BigUint::from(11u32),
        alpha: BigUint::from(4u32),
        beta: BigUint::from(9u32),
    }
}

#[test]
fn test_exponentiate_zero_exponent_is_one() {
    let one = ZKP::exponentiate(
        &BigUint::from(4u32),
        &BigUint::from(0u32),
        &BigUint::from(23u32),
    );
    assert_eq!(one, BigUint::from(1u32));
}

#[test]
fn test_exponentiate_large_values() {
    // 2^200 mod (2^61 - 1), a Mersenne prime: 2^200 = 2^(61*3 + 17) = 2^17 mod it.
    let base = BigUint::from(2u32);
    let exponent = BigUint::from(200u32);
    let modulus = (BigUint::from(1u32) << 61) - BigUint::from(1u32);
    let r = ZKP::exponentiate(&base, &exponent, &modulus);
    assert_eq!(r, BigUint::from(1u32 << 17));
}

#[test]
fn test_solve_direct_branch() {
    // k >= c*x: s = (9 - 1*2) mod 11 = 7.
    let zkp = toy_zkp();
    let s = zkp.solve(
        &BigUint::from(9u32),
        &BigUint::from(1u32),
        &BigUint::from(2u32),
    );
    assert_eq!(s, BigUint::from(7u32));
}

#[test]
fn test_solve_borrow_branch() {
    // k < c*x with c*x - k an exact multiple of q: 3*5 - 4 = 11, so the
    // borrow branch reduces 11 - (11 mod 11) = 11 once more, to 0,
    // keeping the response in [0, q).
    let zkp = toy_zkp();
    let s = zkp.solve(
        &BigUint::from(4u32),
        &BigUint::from(3u32),
        &BigUint::from(5u32),
    );
    assert_eq!(s, BigUint::from(0u32));
    assert!(s < BigUint::from(11u32));

    // k < c*x with a nonzero remainder: 11 - ((12 - 5) mod 11) = 4.
    let s2 = zkp.solve(
        &BigUint::from(5u32),
        &BigUint::from(4u32),
        &BigUint::from(3u32),
    );
    assert_eq!(s2, BigUint::from(4u32));
    assert!(s2 < BigUint::from(11u32));
}

#[test]
fn test_completeness_over_all_toy_inputs() {
    // Completeness on the whole toy domain: every (x, k, c) in [0, q)^3.
    let zkp = toy_zkp();
    let p = BigUint::from(23u32);
    let alpha = BigUint::from(4u32);
    let beta = BigUint::from(9u32);
    for x in 0u32..11 {
        let xb = BigUint::from(x);
        let y1 = ZKP::exponentiate(&alpha, &xb, &p);
        let y2 = ZKP::exponentiate(&beta, &xb, &p);
        for k in 0u32..11 {
            let kb = BigUint::from(k);
            let r1 = ZKP::exponentiate(&alpha, &kb, &p);
            let r2 = ZKP::exponentiate(&beta, &kb, &p);
            for c in 0u32..11 {
                let cb = BigUint::from(c);
                let s = zkp.solve(&kb, &cb, &xb);
                assert!(zkp.verify(&r1, &r2, &y1, &y2, &cb, &s));
            }
        }
    }
}

#[test]
fn test_generate_random_number_below_is_in_range() {
    let bound = BigUint::from(11u32);
    for _ in 0..100 {
        assert!(ZKP::generate_random_number_below(&bound) < bound);
    }
    let one = BigUint::from(1u32);
    assert_eq!(ZKP::generate_random_number_below(&one), BigUint::from(0u32));
}

#[test]
fn test_generate_random_string_length_and_freshness() {
    let a = ZKP::generate_random_string(12);
    let b = ZKP::generate_random_string(12);
    assert_eq!(a.chars().count(), 12);
    assert_eq!(b.chars().count(), 12);
    assert!(a.chars().all(|ch| ch.is_ascii_alphanumeric()));
    // Two 12-character random tokens colliding is vanishingly improbable.
    assert_ne!(a, b);
    assert_eq!(ZKP::generate_random_string(0).len(), 0);
}

#[test]
fn test_derive_secret_reduces_into_range() {
    let q = BigUint::from(11u32);
    // "abc" reads as 0x616263 = 6382179, and 6382179 mod 11 = 1.
    let x = ZKP::derive_secret(&b"abc".to_vec(), &q);
    assert_eq!(x, BigUint::from(1u32));
    assert!(x < q);
    // The empty credential reads as zero.
    let x0 = ZKP::derive_secret(&Vec::new(), &q);
    assert_eq!(x0, BigUint::from(0u32));
}

#[test]
fn test_is_usable_rejects_zero_moduli() {
    assert!(toy_zkp().is_usable());
    let broken = ZKP {
        p: BigUint::from(23u32),
        q: BigUint::from(0u32),
        alpha: BigUint::from(4u32),
        beta: BigUint::from(9u32),
    };
    assert!(!broken.is_usable());
}
