use num_bigint::BigUint;
use zkp_chaum_pedersen::server::{decode_field, TOKEN_LENGTH};
use zkp_chaum_pedersen::{AuthError, AuthImpl, ZKP};

fn toy_zkp() -> ZKP {
    ZKP {
        p: BigUint::from(23u32),
        q: BigUint::from(11u32),
        alpha: BigUint::from(4u32),
        beta: BigUint::from(9u32),
    }
}

/// The registration values of a user with secret `x` in the toy group.
fn commit(x: &BigUint) -> (BigUint, BigUint) {
    let p = BigUint::from(23u32);
    let y1 = ZKP::exponentiate(&BigUint::from(4u32), x, &p);
    let y2 = ZKP::exponentiate(&BigUint::from(9u32), x, &p);
    (y1, y2)
}

/// A fresh ephemeral commitment for nonce `k` in the toy group.
fn ephemeral(k: &BigUint) -> (BigUint, BigUint) {
    commit(k)
}

#[test]
fn test_end_to_end_authentication() {
    let mut auth = AuthImpl::new(toy_zkp());
    let x = BigUint::from(6u32);
    let (y1, y2) = commit(&x);
    auth.register("alice".to_string(), y1, y2);

    let k = BigUint::from(7u32);
    let (r1, r2) = ephemeral(&k);
    let (auth_id, c) = auth
        .create_authentication_challenge(&"alice".to_string(), r1, r2)
        .expect("challenge for a registered user");
    assert!(c < BigUint::from(11u32));

    let s = toy_zkp().solve(&k, &c, &x);
    let session = auth
        .verify_authentication(&auth_id, &s)
        .expect("honest proof verifies");
    assert_eq!(session.len(), TOKEN_LENGTH);
    assert!(!session.is_empty());

    // Replay of a consumed handle is rejected, even with the right answer.
    assert_eq!(
        auth.verify_authentication(&auth_id, &s),
        Err(AuthError::ChallengeNotFound)
    );
}

#[test]
fn test_wrong_answer_is_invalid_and_consumes_the_challenge() {
    let mut auth = AuthImpl::new(toy_zkp());
    let x = BigUint::from(6u32);
    let (y1, y2) = commit(&x);
    auth.register("alice".to_string(), y1, y2);

    let k = BigUint::from(7u32);
    let (r1, r2) = ephemeral(&k);
    let (auth_id, c) = auth
        .create_authentication_challenge(&"alice".to_string(), r1, r2)
        .expect("challenge for a registered user");

    // Answer computed from the wrong secret.
    let s_fake = toy_zkp().solve(&k, &c, &BigUint::from(7u32));
    assert_eq!(
        auth.verify_authentication(&auth_id, &s_fake),
        Err(AuthError::InvalidProof)
    );

    // The failed challenge was consumed: the right answer no longer helps.
    let s = toy_zkp().solve(&k, &c, &x);
    assert_eq!(
        auth.verify_authentication(&auth_id, &s),
        Err(AuthError::ChallengeNotFound)
    );
}

#[test]
fn test_superseding_challenge_invalidates_the_first_handle() {
    let mut auth = AuthImpl::new(toy_zkp());
    let x = BigUint::from(6u32);
    let (y1, y2) = commit(&x);
    auth.register("alice".to_string(), y1, y2);

    let k1 = BigUint::from(7u32);
    let (r1a, r2a) = ephemeral(&k1);
    let (auth_id_1, c1) = auth
        .create_authentication_challenge(&"alice".to_string(), r1a, r2a)
        .expect("first challenge");

    let k2 = BigUint::from(3u32);
    let (r1b, r2b) = ephemeral(&k2);
    let (auth_id_2, _c2) = auth
        .create_authentication_challenge(&"alice".to_string(), r1b, r2b)
        .expect("second challenge");
    assert_ne!(auth_id_1, auth_id_2);

    // Even the correct answer to the first challenge is refused: its handle
    // was invalidated by the second issuance.
    let s1 = toy_zkp().solve(&k1, &c1, &x);
    assert_eq!(
        auth.verify_authentication(&auth_id_1, &s1),
        Err(AuthError::ChallengeNotFound)
    );
}

#[test]
fn test_challenge_for_unknown_user() {
    let mut auth = AuthImpl::new(toy_zkp());
    let (r1, r2) = ephemeral(&BigUint::from(7u32));
    assert_eq!(
        auth.create_authentication_challenge(&"bob".to_string(), r1, r2),
        Err(AuthError::UserNotFound)
    );
}

#[test]
fn test_answer_with_unknown_handle() {
    let mut auth = AuthImpl::new(toy_zkp());
    assert_eq!(
        auth.verify_authentication(&"nosuchhandle".to_string(), &BigUint::from(5u32)),
        Err(AuthError::ChallengeNotFound)
    );
}

#[test]
fn test_reregistration_discards_the_pending_challenge() {
    let mut auth = AuthImpl::new(toy_zkp());
    let x = BigUint::from(6u32);
    let (y1, y2) = commit(&x);
    auth.register("alice".to_string(), y1, y2);

    let k = BigUint::from(7u32);
    let (r1, r2) = ephemeral(&k);
    let (auth_id, c) = auth
        .create_authentication_challenge(&"alice".to_string(), r1, r2)
        .expect("challenge for a registered user");

    // Re-registration overwrites the record and drops the pending challenge.
    let (y1b, y2b) = commit(&x);
    auth.register("alice".to_string(), y1b, y2b);
    let s = toy_zkp().solve(&k, &c, &x);
    assert_eq!(
        auth.verify_authentication(&auth_id, &s),
        Err(AuthError::ChallengeNotFound)
    );
}

#[test]
fn test_two_users_interleaved() {
    let mut auth = AuthImpl::new(toy_zkp());
    let x_alice = BigUint::from(6u32);
    let x_bob = BigUint::from(9u32);
    let (ya1, ya2) = commit(&x_alice);
    let (yb1, yb2) = commit(&x_bob);
    auth.register("alice".to_string(), ya1, ya2);
    auth.register("bob".to_string(), yb1, yb2);

    let k_alice = BigUint::from(7u32);
    let k_bob = BigUint::from(2u32);
    let (ra1, ra2) = ephemeral(&k_alice);
    let (rb1, rb2) = ephemeral(&k_bob);

    // Interleave the two sessions: neither disturbs the other's state.
    let (aid_alice, c_alice) = auth
        .create_authentication_challenge(&"alice".to_string(), ra1, ra2)
        .expect("challenge for alice");
    let (aid_bob, c_bob) = auth
        .create_authentication_challenge(&"bob".to_string(), rb1, rb2)
        .expect("challenge for bob");
    assert_ne!(aid_alice, aid_bob);

    let s_bob = toy_zkp().solve(&k_bob, &c_bob, &x_bob);
    let session_bob = auth
        .verify_authentication(&aid_bob, &s_bob)
        .expect("bob's proof verifies");
    let s_alice = toy_zkp().solve(&k_alice, &c_alice, &x_alice);
    let session_alice = auth
        .verify_authentication(&aid_alice, &s_alice)
        .expect("alice's proof verifies");
    assert_eq!(session_alice.len(), TOKEN_LENGTH);
    assert_eq!(session_bob.len(), TOKEN_LENGTH);
}

#[test]
fn test_decode_field() {
    // A big-endian two-byte field.
    let bytes: Vec<u8> = vec![1, 0];
    assert_eq!(decode_field(&bytes, 2), Ok(BigUint::from(256u32)));
    // The empty sequence reads as zero.
    let empty: Vec<u8> = vec![];
    assert_eq!(decode_field(&empty, 2), Ok(BigUint::from(0u32)));
    // A field longer than the bound is malformed.
    let long: Vec<u8> = vec![1, 2, 3];
    assert_eq!(decode_field(&long, 2), Err(AuthError::MalformedInput));
}
