use apple_tv::srp::{
    hkdf, nonce_of, open, pad, seal, session_open, session_seal, setup_prove, verify_start, Pairing,
};
use apple_tv::tlv8;
use chacha20poly1305::aead::{Aead, KeyInit, Payload};
use num_bigint::BigUint;

/// A value that happens to be short must still occupy the modulus width, or `u`, `M1` and `M2`
/// are all computed over different bytes than the device computed them over.
#[test]
fn padding_keeps_a_short_value_at_the_full_width() {
    let small = BigUint::from(1u8).to_bytes_be();
    assert_eq!(pad(&small, 384).len(), 384);
    assert_eq!(pad(&small, 384)[383], 1);
    assert_eq!(pad(&small, 384)[0], 0);
    // Already full width: unchanged, not truncated or re-padded.
    let big = BigUint::from_bytes_be(&[0xFFu8; 384]).to_bytes_be();
    assert_eq!(pad(&big, 384), vec![0xFFu8; 384]);
}

/// Pairing nonces are 8 ASCII bytes in a 12-byte field, right-aligned.
#[test]
fn a_pairing_nonce_is_right_aligned_in_twelve_bytes() {
    let n = nonce_of(b"PS-Msg05");
    assert_eq!(&n.as_slice()[..4], &[0, 0, 0, 0]);
    assert_eq!(&n.as_slice()[4..], b"PS-Msg05");
}

#[test]
fn a_sealed_pairing_message_opens_again() {
    let key = [7u8; 32];
    let sealed = seal(&key, b"PS-Msg05", b"hello").unwrap();
    assert_eq!(open(&key, b"PS-Msg05", &sealed).unwrap(), b"hello");
    // Wrong label, wrong key: both refused rather than returning rubbish.
    assert!(open(&key, b"PS-Msg06", &sealed).is_err());
    assert!(open(&[8u8; 32], b"PS-Msg05", &sealed).is_err());
}

/// A session frame authenticates its header as additional data, so a frame whose length or type
/// was altered in flight fails to open rather than being decrypted as something else.
#[test]
fn a_session_frame_is_bound_to_its_header() {
    let key = [3u8; 32];
    let header = [0x08, 0, 0, 0x10];
    let sealed = session_seal(&key, 0, &header, b"payload").unwrap();
    assert_eq!(session_open(&key, 0, &header, &sealed).unwrap(), b"payload");

    let tampered = [0x07, 0, 0, 0x10];
    assert!(
        session_open(&key, 0, &tampered, &sealed).is_err(),
        "a changed header must invalidate the frame"
    );
    assert!(
        session_open(&key, 1, &header, &sealed).is_err(),
        "the counter is part of the nonce, so a replayed frame does not open twice"
    );
}

/// The counter is little-endian in the last eight bytes of a twelve-byte nonce.
#[test]
fn the_session_counter_advances_the_nonce() {
    let key = [5u8; 32];
    let header = [0x08, 0, 0, 4];
    let first = session_seal(&key, 0, &header, b"a").unwrap();
    let second = session_seal(&key, 1, &header, b"a").unwrap();
    assert_ne!(first, second, "the counter has to reach the nonce");
    assert!(session_open(&key, 1, &header, &second).is_ok());
}

/// A PIN with the dashes people read off the screen, and one that is not a PIN at all.
#[test]
fn the_pin_is_checked_before_any_crypto_runs() {
    let err = match setup_prove("12", &[0; 16], &[1; 384], [0u8; 32], b"id".to_vec()) {
        Err(e) => e,
        Ok(_) => panic!("two digits is not a PIN"),
    };
    assert!(err.contains("PIN"), "{err}");

    // Dashes and spaces are stripped rather than refused, because that is how it is printed.
    assert!(setup_prove("1234", &[0; 16], &[1; 384], [9u8; 32], b"id".to_vec()).is_ok());
    assert!(setup_prove("123-45-678", &[0; 16], &[1; 384], [9u8; 32], b"id".to_vec()).is_ok());
}

/// Verify refuses a device that is not the one that was paired, before trusting anything it said.
#[test]
fn verify_refuses_a_different_device() {
    let pairing = Pairing {
        device_id: b"the-one-we-paired".to_vec(),
        device_ltpk: vec![0u8; 32],
        client_id: b"us".to_vec(),
        client_sk: [1u8; 32],
    };
    let (verify, _) = verify_start([2u8; 32]);

    // Encrypt a reply claiming to be somebody else, using the key the exchange would derive.
    let secret = x25519_dalek::StaticSecret::from([4u8; 32]);
    let their_pub = x25519_dalek::PublicKey::from(&secret).to_bytes();
    let shared = secret.diffie_hellman(&x25519_dalek::PublicKey::from(verify.public));
    let key = hkdf(
        b"Pair-Verify-Encrypt-Salt",
        b"Pair-Verify-Encrypt-Info",
        shared.as_bytes(),
    );
    let inner = tlv8::encode(&[
        (tlv8::IDENTIFIER, b"a-different-apple-tv".to_vec()),
        (tlv8::SIGNATURE, vec![0u8; 64]),
    ]);
    let sealed = seal(&key, b"PV-Msg02", &inner).unwrap();

    let err = verify
        .verify_prove(&pairing, &their_pub, &sealed)
        .expect_err("a different device must be refused");
    assert!(err.contains("different Apple TV"), "{err}");
}

#[test]
fn sealing_adds_a_tag_and_changes_the_message() {
    let sealed = seal(&[7u8; 32], b"PS-Msg05", b"hello").unwrap();
    assert_eq!(sealed.len(), 5 + 16);
    assert_ne!(&sealed[..5], b"hello");
    assert_eq!(seal(&[7u8; 32], b"PS-Msg05", b"").unwrap().len(), 16);
    assert_eq!(
        open(&[7u8; 32], b"PS-Msg05", &sealed[..15]).unwrap_err(),
        "could not decrypt the Apple TV's reply — wrong key or wrong PIN"
    );
    assert_eq!(
        session_open(&[7u8; 32], 0, b"", &[]).unwrap_err(),
        "could not decrypt a frame — the session is out of step"
    );
}

#[test]
fn a_pairing_nonce_and_a_counter_nonce_are_what_the_cipher_gets() {
    let cipher = chacha20poly1305::ChaCha20Poly1305::new(&[7u8; 32].into());
    let want = cipher.encrypt(&(*b"\0\0\0\0PS-Msg05").into(), &b"hello"[..]).unwrap();
    assert_eq!(seal(&[7u8; 32], b"PS-Msg05", b"hello").unwrap(), want);
    let nonce = [0, 0, 0, 0, 2, 1, 0, 0, 0, 0, 0, 0];
    let want = cipher
        .encrypt(&nonce.into(), Payload { msg: b"hello", aad: b"head" })
        .unwrap();
    assert_eq!(session_seal(&[7u8; 32], 0x102, b"head", b"hello").unwrap(), want);
}

#[test]
fn a_derived_key_depends_on_salt_info_and_secret() {
    let key = hkdf(b"salt", b"info", b"secret");
    assert_ne!(key, hkdf(b"other", b"info", b"secret"));
    assert_ne!(key, hkdf(b"salt", b"other", b"secret"));
    assert_ne!(key, hkdf(b"salt", b"info", b"other"));
    assert_eq!(key, hkdf(b"salt", b"info", b"secret"));
}

#[test]
fn padding_drops_zeros_that_were_in_front() {
    assert_eq!(pad(&[0, 0, 5], 2), vec![0, 5]);
    assert_eq!(pad(&[], 2), vec![0, 0]);
    assert_eq!(pad(&[1, 2, 3], 2), vec![1, 2, 3]);
    assert_eq!(pad(&[0], 0), vec![0]);
}

/// The secret exponent nought makes the public value one, which is as short as it gets.
#[test]
fn our_public_value_always_has_the_full_width() {
    for seed in [[0u8; 32], [9u8; 32]] {
        let (setup, tlv) = match setup_prove("1234", &[0; 16], &[1; 384], seed, b"id".to_vec()) {
            Ok(found) => found,
            Err(e) => panic!("{e}"),
        };
        assert_eq!(setup.a_pub_padded.len(), 384);
        assert_eq!(setup.session_key.len(), 64);
        assert_eq!(setup.proof_sent.len(), 64);
        let items = tlv8::decode(&tlv);
        assert_eq!(tlv8::get(&items, tlv8::PUBLIC_KEY), Some(setup.a_pub_padded.as_slice()));
        assert_eq!(tlv8::get(&items, tlv8::PROOF), Some(setup.proof_sent.as_slice()));
    }
}
