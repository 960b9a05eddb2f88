//! A device of our own, so that the whole handshake can be run against it.

use apple_tv::device::{data_of, pairing_frame, text_of, AppleTv, Session};
use apple_tv::frame::{encode, Framer, E_OPACK, PS_NEXT, PS_START, PV_NEXT, PV_START};
use apple_tv::host::{Args, HostCall, Instance};
use apple_tv::opack::{pack, unpack, Val};
use apple_tv::setup::DEFAULT_PORT;
use apple_tv::srp::{
    hkdf, identity_message, open, pad, pairing_from, proof_message, read_reply, seal, setup_prove,
    setup_start, verify_start, Pairing,
};
use apple_tv::steps::{Property, SetupInput, SetupState, SetupStep};
use apple_tv::tlv8;
use ed25519_dalek::{Signer, SigningKey, Verifier};
use num_bigint::BigUint;
use sha2::{Digest, Sha512};

fn h(parts: &[&[u8]]) -> Vec<u8> {
    let mut d = Sha512::new();
    for p in parts {
        d.update(p);
    }
    d.finalize().to_vec()
}

/// The device's side of Pair Setup.
struct Device {
    pin: &'static str,
    salt: Vec<u8>,
    b: BigUint,
    v: BigUint,
    public: Vec<u8>,
    key: SigningKey,
}

impl Device {
    fn new(pin: &'static str) -> Device {
        let group = &*srp::groups::G_3072;
        let salt = vec![7u8; 16];
        let x = BigUint::from_bytes_be(&h(&[
            &salt,
            &h(&[b"Pair-Setup:", pin.as_bytes()]),
        ]));
        let v = group.g.modpow(&x, &group.n);
        let k = BigUint::from_bytes_be(&h(&[
            &group.n.to_bytes_be(),
            &pad(&group.g.to_bytes_be(), 384),
        ]));
        let b = BigUint::from_bytes_be(&[0x5A; 32]);
        let public = (k * &v + group.g.modpow(&b, &group.n)) % &group.n;
        Device {
            pin,
            salt,
            b,
            v,
            public: public.to_bytes_be(),
            key: SigningKey::from_bytes(&[0x33; 32]),
        }
    }

    /// The session key and the proof for the client's public value and proof, if its proof is one.
    fn check(&self, a_pub: &[u8], m1: &[u8]) -> Option<(Vec<u8>, Vec<u8>)> {
        let group = &*srp::groups::G_3072;
        assert_eq!(a_pub.len(), 384);
        let b_pad = pad(&self.public, 384);
        let u = BigUint::from_bytes_be(&h(&[a_pub, &b_pad]));
        let a = BigUint::from_bytes_be(a_pub);
        let s = (a * self.v.modpow(&u, &group.n)).modpow(&self.b, &group.n);
        let key = h(&[&s.to_bytes_be()]);
        let h_n = h(&[&group.n.to_bytes_be()]);
        let h_g = h(&[&group.g.to_bytes_be()]);
        let xor: Vec<u8> = h_n.iter().zip(&h_g).map(|(l, r)| l ^ r).collect();
        let want = h(&[&xor, &h(&[b"Pair-Setup"]), &self.salt, a_pub, &b_pad, &key]);
        assert_eq!(self.pin.len(), 4);
        if m1 != want {
            return None;
        }
        let m2 = h(&[a_pub, m1, &key]);
        Some((key, m2))
    }

    /// The device's identity, sealed.
    fn identity(&self, key: &[u8]) -> Vec<u8> {
        let inner = tlv8::encode(&[
            (tlv8::IDENTIFIER, b"the-tv".to_vec()),
            (tlv8::PUBLIC_KEY, self.key.verifying_key().to_bytes().to_vec()),
        ]);
        seal(&setup_key(key), b"PS-Msg06", &inner).unwrap()
    }
}

fn setup_key(key: &[u8]) -> [u8; 32] {
    hkdf(b"Pair-Setup-Encrypt-Salt", b"Pair-Setup-Encrypt-Info", key)
}

#[test]
fn pair_setup_runs_to_a_pairing() {
    let device = Device::new("1234");
    assert_eq!(
        tlv8::decode(&setup_start()),
        vec![(tlv8::METHOD, vec![0]), (tlv8::STATE, vec![1])]
    );

    let (setup, m3) =
        setup_prove("12-34", &device.salt, &device.public, [9u8; 32], b"us".to_vec()).unwrap();
    let items = tlv8::decode(&m3);
    assert_eq!(tlv8::get(&items, tlv8::STATE), Some(&[3u8][..]));
    let a_pub = tlv8::get(&items, tlv8::PUBLIC_KEY).unwrap();
    let m1 = tlv8::get(&items, tlv8::PROOF).unwrap();
    let (key, m2) = device.check(a_pub, m1).expect("the device accepts the proof");

    assert_eq!(
        setup.setup_exchange(&[0; 64], "Juno").unwrap_err(),
        "the Apple TV's proof did not match — wrong PIN"
    );
    let m5 = tlv8::decode(&setup.setup_exchange(&m2, "Juno").unwrap());
    assert_eq!(tlv8::get(&m5, tlv8::STATE), Some(&[5u8][..]));
    let sealed = tlv8::get(&m5, tlv8::ENCRYPTED_DATA).unwrap();
    let inner = tlv8::decode(&open(&setup_key(&key), b"PS-Msg05", sealed).unwrap());
    let ltpk = tlv8::get(&inner, tlv8::PUBLIC_KEY).unwrap().to_vec();
    assert_eq!(tlv8::get(&inner, tlv8::IDENTIFIER), Some(&b"us"[..]));
    let name = unpack(tlv8::get(&inner, tlv8::NAME).unwrap()).unwrap();
    assert_eq!(text_of(&name, "name"), Some("Juno"));

    // The identity is signed by the key that is handed over.
    let mut signed = hkdf(
        b"Pair-Setup-Controller-Sign-Salt",
        b"Pair-Setup-Controller-Sign-Info",
        &key,
    )
    .to_vec();
    signed.extend_from_slice(b"us");
    signed.extend_from_slice(&ltpk);
    let signature: [u8; 64] = tlv8::get(&inner, tlv8::SIGNATURE).unwrap().try_into().unwrap();
    let theirs = ed25519_dalek::VerifyingKey::from_bytes(&ltpk.try_into().unwrap()).unwrap();
    assert!(theirs
        .verify(&signed, &ed25519_dalek::Signature::from_bytes(&signature))
        .is_ok());

    let pairing = setup.setup_finish(&device.identity(&key)).unwrap();
    assert_eq!(pairing.device_id, b"the-tv");
    assert_eq!(pairing.device_ltpk, device.key.verifying_key().to_bytes().to_vec());
    assert_eq!(pairing.client_id, b"us");
    assert_eq!(pairing.client_sk, [9u8; 32]);
    assert_eq!(
        setup.setup_finish(&[0; 40]).unwrap_err(),
        "could not decrypt the Apple TV's reply — wrong key or wrong PIN"
    );
}

#[test]
fn another_code_is_not_proved() {
    let device = Device::new("1234");
    let (_, m3) =
        setup_prove("4321", &device.salt, &device.public, [9u8; 32], b"us".to_vec()).unwrap();
    let items = tlv8::decode(&m3);
    let a_pub = tlv8::get(&items, tlv8::PUBLIC_KEY).unwrap();
    assert!(device.check(a_pub, tlv8::get(&items, tlv8::PROOF).unwrap()).is_none());
}

#[test]
fn a_public_value_that_is_nothing_is_refused() {
    let n = srp::groups::G_3072.n.to_bytes_be();
    for nothing in [vec![], vec![0; 384], n.clone()] {
        let err = match setup_prove("1234", &[0; 16], &nothing, [9u8; 32], vec![]) {
            Err(e) => e,
            Ok(_) => panic!("nothing in the group is no public value"),
        };
        assert_eq!(err, "the Apple TV sent an invalid SRP public key");
    }
}

#[test]
fn the_same_arguments_give_the_same_exchange() {
    let device = Device::new("1234");
    let run = || {
        setup_prove("1234", &device.salt, &device.public, [9u8; 32], b"us".to_vec()).unwrap()
    };
    let (one, first) = run();
    let (two, second) = run();
    assert_eq!(first, second);
    assert_eq!(one.session_key, two.session_key);
    assert_eq!(one.proof_sent, two.proof_sent);
    assert_eq!(one.a_pub_padded, two.a_pub_padded);
    assert_eq!(one.a_pub_padded.len(), 384);
}

#[test]
fn the_proof_is_the_hash_of_its_parts_in_order() {
    assert_eq!(
        proof_message(&[0xF0, 0x0F], &[0xFF, 0xFF], b"i", b"s", b"a", b"b", b"k"),
        [&[0x0F, 0xF0][..], b"isabk"].concat()
    );
    // As far as both go.
    assert_eq!(proof_message(&[1, 2, 3], &[1], b"", b"", b"", b"", b""), vec![0]);
}

#[test]
fn an_identity_holds_what_it_is_made_of() {
    let items = tlv8::decode(&identity_message(b"id", b"key", b"sig", "Den"));
    assert_eq!(items[..3], [
        (tlv8::IDENTIFIER, b"id".to_vec()),
        (tlv8::PUBLIC_KEY, b"key".to_vec()),
        (tlv8::SIGNATURE, b"sig".to_vec()),
    ]);
    assert_eq!(items[3], (tlv8::NAME, b"\xE1\x44name\x43Den".to_vec()));
}

#[test]
fn a_pairing_needs_an_identifier_and_a_key() {
    let id = (tlv8::IDENTIFIER, b"tv".to_vec());
    let key = (tlv8::PUBLIC_KEY, vec![5; 32]);
    assert_eq!(
        pairing_from(&tlv8::encode(&[key.clone()]), b"us", [1; 32]).unwrap_err(),
        "the Apple TV sent no identifier"
    );
    assert_eq!(
        pairing_from(&tlv8::encode(&[id.clone()]), b"us", [1; 32]).unwrap_err(),
        "the Apple TV sent no public key"
    );
    let pairing = pairing_from(&tlv8::encode(&[id, key]), b"us", [1; 32]).unwrap();
    let want = Pairing {
        device_id: b"tv".to_vec(),
        device_ltpk: vec![5; 32],
        client_id: b"us".to_vec(),
        client_sk: [1; 32],
    };
    assert_eq!(pairing, want);
    assert_eq!(pairing.clone(), want);
}

#[test]
fn a_reply_needs_an_identifier_a_signature_and_the_right_device() {
    let id = (tlv8::IDENTIFIER, b"tv".to_vec());
    let sig = (tlv8::SIGNATURE, vec![5; 64]);
    let read = |items: &[(u8, Vec<u8>)], who: &[u8]| read_reply(&tlv8::encode(items), who);
    assert_eq!(read(&[sig.clone()], b"tv").unwrap_err(), "no identifier in the reply");
    assert_eq!(read(&[id.clone()], b"tv").unwrap_err(), "no signature in the reply");
    assert_eq!(
        read(&[id.clone(), sig.clone()], b"other").unwrap_err(),
        "this is a different Apple TV than the one that was paired"
    );
    assert_eq!(read(&[id, sig], b"tv").unwrap(), vec![5; 64]);
}

fn verify_key(shared: &[u8]) -> [u8; 32] {
    hkdf(b"Pair-Verify-Encrypt-Salt", b"Pair-Verify-Encrypt-Info", shared)
}

/// The device's reply to an offer: its public key, what it seals, and the shared secret.
fn verify_reply(key: &SigningKey, id: &[u8], offered: [u8; 32]) -> ([u8; 32], Vec<u8>, [u8; 32]) {
    let secret = x25519_dalek::StaticSecret::from([4u8; 32]);
    let public = x25519_dalek::PublicKey::from(&secret).to_bytes();
    let shared = secret.diffie_hellman(&x25519_dalek::PublicKey::from(offered)).to_bytes();
    let signature = key.sign(&[&public[..], id, &offered[..]].concat()).to_bytes();
    let inner = tlv8::encode(&[
        (tlv8::IDENTIFIER, id.to_vec()),
        (tlv8::SIGNATURE, signature.to_vec()),
    ]);
    (public, seal(&verify_key(&shared), b"PV-Msg02", &inner).unwrap(), shared)
}

fn pairing_with(key: &SigningKey) -> Pairing {
    Pairing {
        device_id: b"the-tv".to_vec(),
        device_ltpk: key.verifying_key().to_bytes().to_vec(),
        client_id: b"us".to_vec(),
        client_sk: [1u8; 32],
    }
}

#[test]
fn pair_verify_runs_to_the_keys_of_a_session() {
    let key = SigningKey::from_bytes(&[0x33; 32]);
    let pairing = pairing_with(&key);
    let (verify, m1) = verify_start([2u8; 32]);
    assert_eq!(
        tlv8::decode(&m1),
        vec![(tlv8::STATE, vec![1]), (tlv8::PUBLIC_KEY, verify.public.to_vec())]
    );
    let (public, sealed, shared) = verify_reply(&key, b"the-tv", verify.public);
    let (m3, write, read) = verify.verify_prove(&pairing, &public, &sealed).unwrap();
    assert_eq!(write, hkdf(b"", b"ClientEncrypt-main", &shared));
    assert_eq!(read, hkdf(b"", b"ServerEncrypt-main", &shared));

    let items = tlv8::decode(&m3);
    assert_eq!(tlv8::get(&items, tlv8::STATE), Some(&[3u8][..]));
    let data = tlv8::get(&items, tlv8::ENCRYPTED_DATA).unwrap();
    let inner = tlv8::decode(&open(&verify_key(&shared), b"PV-Msg03", data).unwrap());
    assert_eq!(tlv8::get(&inner, tlv8::IDENTIFIER), Some(&b"us"[..]));
    let signature: [u8; 64] = tlv8::get(&inner, tlv8::SIGNATURE).unwrap().try_into().unwrap();
    let ours = SigningKey::from_bytes(&[1u8; 32]).verifying_key();
    assert!(ours
        .verify(
            &[&verify.public[..], b"us", &public[..]].concat(),
            &ed25519_dalek::Signature::from_bytes(&signature)
        )
        .is_ok());
}

#[test]
fn every_refusal_of_a_verification_has_its_words() {
    let key = SigningKey::from_bytes(&[0x33; 32]);
    let (verify, _) = verify_start([2u8; 32]);
    let (public, sealed, shared) = verify_reply(&key, b"the-tv", verify.public);
    let refuse = |pairing: &Pairing, public: &[u8], sealed: &[u8]| {
        verify.verify_prove(pairing, public, sealed).unwrap_err()
    };

    let pairing = pairing_with(&key);
    assert_eq!(
        refuse(&pairing, &public[..31], &sealed),
        "the Apple TV sent a malformed public key"
    );
    assert_eq!(
        refuse(&pairing, &public, &sealed[1..]),
        "could not decrypt the Apple TV's reply — wrong key or wrong PIN"
    );

    let mut short = pairing_with(&key);
    short.device_ltpk.pop();
    assert_eq!(
        refuse(&short, &public, &sealed),
        "the stored key for this Apple TV is malformed"
    );

    // No point of the curve has this y coordinate.
    let mut wrong = pairing_with(&key);
    wrong.device_ltpk = vec![0u8; 32];
    wrong.device_ltpk[0] = 2;
    assert_eq!(
        refuse(&wrong, &public, &sealed),
        "the stored key for this Apple TV is not a valid key"
    );

    // Reset since: another key under the same identifier.
    let reset = pairing_with(&SigningKey::from_bytes(&[0x44; 32]));
    assert_eq!(
        refuse(&reset, &public, &sealed),
        "the Apple TV's signature did not check out — it may have been reset"
    );

    let inner = tlv8::encode(&[
        (tlv8::IDENTIFIER, b"the-tv".to_vec()),
        (tlv8::SIGNATURE, vec![0; 63]),
    ]);
    let malformed = seal(&verify_key(&shared), b"PV-Msg02", &inner).unwrap();
    assert_eq!(
        refuse(&pairing, &public, &malformed),
        "the Apple TV sent a malformed signature"
    );
}

// --------------------------------------------------------------------------------------------
// Through the driver
// --------------------------------------------------------------------------------------------

fn numbers(bytes: &[u8]) -> Option<Vec<Option<u64>>> {
    Some(bytes.iter().map(|b| Some(*b as u64)).collect())
}

fn payload(wire: &[u8], kind: u8) -> Val {
    let mut f = Framer::default();
    f.feed(wire);
    let (k, payload) = f.next(None, 0).unwrap().unwrap();
    assert_eq!(k, kind);
    assert!(!f.pending());
    unpack(&payload).unwrap()
}

fn pairing_items(wire: &[u8], kind: u8, xid: u64) -> Vec<(u8, Vec<u8>)> {
    let message = payload(wire, kind);
    assert_eq!(message.get("_pwTy"), Some(&Val::Int(1)));
    assert_eq!(message.get("_x"), Some(&Val::Int(xid)));
    tlv8::decode(data_of(&message, "_pd").unwrap())
}

fn answer(items: &[(u8, Vec<u8>)]) -> SetupInput {
    let tlv = tlv8::encode(items);
    // Something else comes first, as it may.
    let mut wire = encode(PS_NEXT, &pack(&Val::Null), None, 0).unwrap();
    wire.extend(
        encode(PS_NEXT, &pack(&pairing_frame(tlv, ("_pwTy", 1), 1)), None, 0).unwrap(),
    );
    let mut input = SetupInput::new();
    input.received_bytes = numbers(&wire);
    input
}

#[test]
fn setup_and_connection_run_through_the_driver() {
    let device = Device::new("1234");
    let d = AppleTv;

    let mut state = SetupState::new();
    state.phase = Some("mode".to_string());
    let mut input = SetupInput::new();
    input.answers.address = Some("10.0.0.9:7000".to_string());
    let (step, next) = d.setup(&state, &input);
    let SetupStep::Session { open: Some(to), send_bytes, session: None, close: false, read_ms, .. } =
        step
    else {
        panic!("expected a connection")
    };
    assert_eq!((to.host.as_str(), to.port, to.tls, read_ms), ("10.0.0.9", 7000, false, 5000));
    assert_eq!(
        pairing_items(&send_bytes, PS_START, 1),
        vec![(tlv8::METHOD, vec![0]), (tlv8::STATE, vec![1])]
    );
    let state = next.unwrap();
    assert_eq!(state.phase.as_deref(), Some("asked"));

    let mut input = answer(&[
        (tlv8::STATE, vec![2]),
        (tlv8::SALT, device.salt.clone()),
        (tlv8::PUBLIC_KEY, device.public.clone()),
    ]);
    input.session = Some(0x1_0000_0007);
    let (step, next) = d.setup(&state, &input);
    let SetupStep::Form { fields, .. } = step else { panic!("expected a form") };
    assert_eq!(fields.len(), 1);
    assert_eq!(fields[0].name, "pin");
    let state = next.unwrap();
    assert_eq!(state.phase.as_deref(), Some("pin"));
    assert_eq!(state.answers.client_id.as_ref().unwrap().len(), 36);

    let mut input = SetupInput::new();
    input.answers.pin = Some("1 2 3 4".to_string());
    let (step, next) = d.setup(&state, &input);
    let SetupStep::Session { session, send_bytes, close: false, .. } = step else {
        panic!("expected a message")
    };
    assert_eq!(session, Some(7));
    let m3 = pairing_items(&send_bytes, PS_NEXT, 2);
    let a_pub = tlv8::get(&m3, tlv8::PUBLIC_KEY).unwrap();
    let m1 = tlv8::get(&m3, tlv8::PROOF).unwrap();
    let (key, m2) = device.check(a_pub, m1).expect("the device accepts the proof");
    let state = next.unwrap();
    assert_eq!(state.phase.as_deref(), Some("proved"));

    let (step, next) = d.setup(&state, &answer(&[(tlv8::STATE, vec![4]), (tlv8::PROOF, m2)]));
    let SetupStep::Session { send_bytes, close: true, .. } = step else {
        panic!("expected the last message")
    };
    let m5 = pairing_items(&send_bytes, PS_NEXT, 3);
    let sealed = tlv8::get(&m5, tlv8::ENCRYPTED_DATA).unwrap();
    let inner = tlv8::decode(&open(&setup_key(&key), b"PS-Msg05", sealed).unwrap());
    let client_id = tlv8::get(&inner, tlv8::IDENTIFIER).unwrap().to_vec();
    assert_eq!(Some(client_id), state.answers.client_id.clone().map(|t| t.into_bytes()));
    let state = next.unwrap();
    assert_eq!(state.phase.as_deref(), Some("exchanged"));

    let (step, next) = d.setup(
        &state,
        &answer(&[(tlv8::STATE, vec![6]), (tlv8::ENCRYPTED_DATA, device.identity(&key))]),
    );
    assert!(next.is_none());
    let SetupStep::Done { candidates } = step else { panic!("expected a device") };
    assert_eq!(candidates.len(), 1);
    let c = &candidates[0];
    assert_eq!(
        (c.label.as_str(), c.kind.as_str(), c.driver_id.as_str(), c.verified.as_str()),
        ("Apple TV", "Apple TV", "apple.tv", "paired over Companion")
    );

    // The device that came of it connects.
    let mut inst = Instance::new(1);
    for (name, value) in &c.properties {
        match (name.as_str(), value) {
            ("Address", Property::Text(t)) => assert_eq!(t, "10.0.0.9"),
            ("Port", Property::Number(n)) => assert_eq!(*n, 7000),
            ("Device id", Property::Text(t)) => inst.properties.device_id = Some(t.clone()),
            ("Device key", Property::Text(t)) => inst.properties.device_key = Some(t.clone()),
            ("Controller id", Property::Text(t)) => inst.properties.controller_id = Some(t.clone()),
            ("Controller key", Property::Text(t)) => {
                inst.properties.controller_key = Some(t.clone())
            }
            other => panic!("unexpected property {other:?}"),
        }
    }
    let calls = d.on_bind(&mut inst);
    let HostCall::Tx { data, .. } = &calls[0] else { panic!("expected an offer") };
    let offer = payload(data, PV_START);
    let items = tlv8::decode(data_of(&offer, "_pd").unwrap());
    let offered: [u8; 32] = tlv8::get(&items, tlv8::PUBLIC_KEY).unwrap().try_into().unwrap();
    let (public, sealed, shared) = verify_reply(&device.key, b"the-tv", offered);
    let tlv = tlv8::encode(&[
        (tlv8::STATE, vec![2]),
        (tlv8::PUBLIC_KEY, public.to_vec()),
        (tlv8::ENCRYPTED_DATA, sealed),
    ]);
    let reply = encode(PV_NEXT, &pack(&pairing_frame(tlv, ("_auTy", 4), 1)), None, 0).unwrap();
    let mut args = Args::new();
    args.bytes = numbers(&reply);
    let calls = d.on_event(&mut inst, 0, "rx", &args);
    assert_eq!(calls.len(), 5);
    let session = Session::load(&inst).unwrap();
    assert_eq!(session.write, hkdf(b"", b"ClientEncrypt-main", &shared));
    assert_eq!((session.sent, session.received), (3, 0));
    let HostCall::Tx { data, .. } = &calls[1] else { panic!("expected a request") };
    let mut f = Framer::default();
    f.feed(data);
    let (kind, info) = f.next(Some(&session.write), 0).unwrap().unwrap();
    assert_eq!(kind, E_OPACK);
    assert_eq!(text_of(&unpack(&info).unwrap(), "_i"), Some("_systemInfo"));
    assert_eq!(DEFAULT_PORT, 49152);
}
