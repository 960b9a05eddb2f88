//! The HAP pairing handshake, which is what Companion runs under its own framing.
//!
//! - **Pair Setup** (`M1` to `M6`) runs once: SRP-6a against the PIN on the television, after
//!   which each side holds the other's long-term Ed25519 key. What comes out is a [`Pairing`].
//! - **Pair Verify** (`M1` to `M4`) runs on every connection: an X25519 exchange signed by those
//!   keys, after which both sides hold the two session keys.
//!
//! The easy mistakes: `u`, `M1` and `M2` are computed over padded values; every key is derived
//! from the hash of the premaster secret and not from the secret; a pairing nonce is eight bytes
//! behind four zeros, while a session nonce is a counter.

pub mod laws;

use crate::bytes;
use crate::crypto;
use crate::opack;
use crate::opack::model;
use crate::opack::model::Node;
use crate::strmap;
use crate::text;
use crate::tlv8;
use vstd::prelude::*;
use vstd::utf8::*;

verus! {

/// What Pair Setup produces and Pair Verify consumes.
#[derive(Debug)]
pub struct Pairing {
    /// The Apple TV's pairing identifier, as it sent it.
    pub device_id: Vec<u8>,
    /// Its long-term Ed25519 public key.
    pub device_ltpk: Vec<u8>,
    /// Ours: an identifier that was made up at pairing time and has to stay in use.
    pub client_id: Vec<u8>,
    /// Our Ed25519 seed. It proves that we are the controller it paired with.
    pub client_sk: [u8; 32],
}

/// A pairing as a mathematical object.
pub struct PairingView {
    pub device_id: Seq<u8>,
    pub device_ltpk: Seq<u8>,
    pub client_id: Seq<u8>,
    pub client_sk: Seq<u8>,
}

impl View for Pairing {
    type V = PairingView;

    open spec fn view(&self) -> PairingView {
        PairingView {
            device_id: self.device_id@,
            device_ltpk: self.device_ltpk@,
            client_id: self.client_id@,
            client_sk: self.client_sk@,
        }
    }
}

/// A pairing, part by part.
pub proof fn law_pairing_says(p: Pairing)
    ensures
        p@.device_id == p.device_id@,
        p@.device_ltpk == p.device_ltpk@,
        p@.client_id == p.client_id@,
        p@.client_sk == p.client_sk@,
{
}

impl Clone for Pairing {
    fn clone(&self) -> (r: Self)
        ensures
            r@ == self@,
    {
        Pairing {
            device_id: bytes::copy(self.device_id.as_slice()),
            device_ltpk: bytes::copy(self.device_ltpk.as_slice()),
            client_id: bytes::copy(self.client_id.as_slice()),
            client_sk: self.client_sk,
        }
    }
}

impl PartialEq for Pairing {
    fn eq(&self, other: &Self) -> (r: bool) {
        bytes::same(self.device_id.as_slice(), other.device_id.as_slice()) && bytes::same(
            self.device_ltpk.as_slice(),
            other.device_ltpk.as_slice(),
        ) && bytes::same(self.client_id.as_slice(), other.client_id.as_slice()) && bytes::same(
            self.client_sk.as_slice(),
            other.client_sk.as_slice(),
        )
    }
}

impl vstd::std_specs::cmp::PartialEqSpecImpl for Pairing {
    open spec fn obeys_eq_spec() -> bool {
        true
    }

    open spec fn eq_spec(&self, other: &Self) -> bool {
        self@ == other@
    }
}

// --------------------------------------------------------------------------------------------
// Keys, nonces and sealing
// --------------------------------------------------------------------------------------------

/// HAP derives every key with HKDF-SHA512 to 32 bytes.
pub fn hkdf(salt: &[u8], info: &[u8], secret: &[u8]) -> (r: [u8; 32])
    ensures
        r@ == crypto::hkdf_expanded(salt@, info@, secret@),
{
    crypto::hkdf32(salt, info, secret)
}

/// A big-endian number with zeros in front up to `width` bytes. A number drops its leading zero
/// byte about one time in 256; unpadded, pairing would fail that often and for no visible reason.
pub fn pad(value: &[u8], width: usize) -> (r: Vec<u8>)
    ensures
        r@ == bytes::padded(bytes::be_nat(value@), width as nat),
        bytes::be_nat(r@) == bytes::be_nat(value@),
{
    let raw = crypto::shortest(value);
    let mut out: Vec<u8> = Vec::new();
    proof {
        bytes::law_padding_keeps_the_number(bytes::be_nat(value@), width as nat);
    }
    if raw.len() < width {
        let n: usize = width - raw.len();
        while out.len() < n
            invariant
                out@.len() <= n,
                out@ == bytes::zeros(out@.len()),
            decreases n - out@.len(),
        {
            out.push(0);
            assert(out@ =~= bytes::zeros(out@.len()));
        }
    }
    bytes::append(&mut out, raw.as_slice());
    assert(out@ =~= bytes::padded(bytes::be_nat(value@), width as nat));
    out
}

/// A pairing label behind zeros, twelve bytes in all.
pub open spec fn label_nonce(label: Seq<u8>) -> Seq<u8> {
    bytes::zeros((12 - label.len()) as nat) + label
}

/// An eight-byte pairing nonce in the twelve-byte form that ChaCha20-Poly1305 takes: four zeros
/// and then the text.
pub fn nonce_of(label: &[u8]) -> (r: [u8; 12])
    requires
        label@.len() <= 12,
    ensures
        r@ == label_nonce(label@),
{
    let mut n: [u8; 12] = [0u8; 12];
    let start: usize = 12 - label.len();
    let mut i: usize = 0;
    while i < label.len()
        invariant
            i <= label@.len() <= 12,
            start == 12 - label@.len(),
            forall|j: int| 0 <= j < start ==> n@[j] == 0,
            forall|j: int| 0 <= j < i ==> n@[start + j] == label@[j],
        decreases label@.len() - i,
    {
        n[start + i] = label[i];
        i += 1;
    }
    assert(n@ =~= label_nonce(label@));
    n
}

/// What [`seal`] gives, where the message is not too long.
pub open spec fn sealed(key: Seq<u8>, label: Seq<u8>, plain: Seq<u8>) -> Option<Seq<u8>> {
    if plain.len() <= crypto::LONGEST {
        Some(crypto::chacha_sealed(key, label_nonce(label), seq![], plain))
    } else {
        None
    }
}

/// What [`open`] gives, where the message is genuine.
pub open spec fn opened(key: Seq<u8>, label: Seq<u8>, message: Seq<u8>) -> Option<Seq<u8>> {
    if message.len() <= crypto::LONGEST + crypto::TAG {
        crypto::chacha_opened(key, label_nonce(label), seq![], message)
    } else {
        None
    }
}

/// Encrypt a pairing message under its label. What is sealed opens under the same key and label.
pub fn seal(key: &[u8; 32], label: &[u8], plain: &[u8]) -> (r: Result<Vec<u8>, String>)
    requires
        label@.len() <= 12,
    ensures
        match r {
            Ok(message) => {
                &&& sealed(key@, label@, plain@) == Some(message@)
                &&& message@.len() == plain@.len() + crypto::TAG
                &&& opened(key@, label@, message@) == Some(plain@)
            },
            Err(e) => sealed(key@, label@, plain@) is None && e@
                == "could not encrypt the pairing message"@,
        },
{
    if plain.len() as u64 > crypto::LONGEST {
        return Err("could not encrypt the pairing message".to_string());
    }
    let none: [u8; 0] = [];
    assert(none@ =~= Seq::<u8>::empty());
    match crypto::chacha_seal(key, &nonce_of(label), none.as_slice(), plain) {
        Some(message) => Ok(message),
        None => Err("could not encrypt the pairing message".to_string()),
    }
}

/// Decrypt a pairing message under its label.
pub fn open(key: &[u8; 32], label: &[u8], sealed: &[u8]) -> (r: Result<Vec<u8>, String>)
    requires
        label@.len() <= 12,
    ensures
        match r {
            Ok(plain) => opened(key@, label@, sealed@) == Some(plain@),
            Err(e) => opened(key@, label@, sealed@) is None && e@ == unopened(),
        },
{
    if sealed.len() as u64 > crypto::LONGEST + crypto::TAG as u64 {
        return Err(
            "could not decrypt the Apple TV's reply — wrong key or wrong PIN".to_string(),
        );
    }
    let none: [u8; 0] = [];
    assert(none@ =~= Seq::<u8>::empty());
    match crypto::chacha_open(key, &nonce_of(label), none.as_slice(), sealed) {
        Some(plain) => Ok(plain),
        None => Err("could not decrypt the Apple TV's reply — wrong key or wrong PIN".to_string()),
    }
}

/// The complaint that a pairing message did not open.
pub open spec fn unopened() -> Seq<char> {
    "could not decrypt the Apple TV's reply — wrong key or wrong PIN"@
}

/// A session nonce: four zeros and the counter, its low byte first.
pub open spec fn counter_nonce(counter: u64) -> Seq<u8> {
    bytes::zeros(4) + bytes::le_bytes(counter as nat, 8)
}

fn nonce_for(counter: u64) -> (r: [u8; 12])
    ensures
        r@ == counter_nonce(counter),
{
    let mut digits: Vec<u8> = Vec::new();
    bytes::push_le(&mut digits, counter, 8);
    proof {
        bytes::lemma_le_bytes_len(counter as nat, 8);
        assert(digits@ =~= bytes::le_bytes(counter as nat, 8));
    }
    let mut n: [u8; 12] = [0u8; 12];
    let mut i: usize = 0;
    while i < 8
        invariant
            i <= 8,
            digits@.len() == 8,
            forall|j: int| 0 <= j < 4 ==> n@[j] == 0,
            forall|j: int| 0 <= j < i ==> n@[4 + j] == digits@[j],
        decreases 8 - i,
    {
        n[4 + i] = digits[i];
        i += 1;
    }
    assert(n@ =~= counter_nonce(counter));
    n
}

/// Two counters give the same nonce only where they are the same.
pub proof fn law_counter_reaches_the_nonce(a: u64, b: u64)
    ensures
        counter_nonce(a) == counter_nonce(b) ==> a == b,
        counter_nonce(a).len() == 12,
{
    bytes::lemma_pow256_values();
    bytes::lemma_le_bytes_len(a as nat, 8);
    bytes::lemma_le_bytes_len(b as nat, 8);
    bytes::law_le_round_trip(a as nat, 8);
    bytes::law_le_round_trip(b as nat, 8);
    assert(counter_nonce(a).skip(4) =~= bytes::le_bytes(a as nat, 8));
    assert(counter_nonce(b).skip(4) =~= bytes::le_bytes(b as nat, 8));
}

/// A session nonce has twelve bytes: four zeros, and eight that spell the counter with the low
/// byte first.
pub proof fn law_counter_spelled(counter: u64)
    ensures
        counter_nonce(counter).len() == 12,
        forall|i: int| 0 <= i < 4 ==> counter_nonce(counter)[i] == 0,
        bytes::le_nat(counter_nonce(counter).skip(4)) == counter,
{
    bytes::lemma_pow256_values();
    bytes::lemma_le_bytes_len(counter as nat, 8);
    bytes::law_le_round_trip(counter as nat, 8);
    assert(counter_nonce(counter).skip(4) =~= bytes::le_bytes(counter as nat, 8));
}

/// A pairing nonce has twelve bytes, and ends in its label: what is in front is zero.
pub proof fn law_label_spelled(label: Seq<u8>)
    requires
        label.len() <= 12,
    ensures
        label_nonce(label).len() == 12,
        label_nonce(label).skip(12 - label.len()) == label,
        forall|i: int| 0 <= i < 12 - label.len() ==> label_nonce(label)[i] == 0,
{
    assert(label_nonce(label).skip(12 - label.len()) =~= label);
}

/// What [`session_seal`] gives, where the frame is not too long.
pub open spec fn session_sealed(
    key: Seq<u8>,
    counter: u64,
    header: Seq<u8>,
    plain: Seq<u8>,
) -> Option<Seq<u8>> {
    if plain.len() <= crypto::LONGEST {
        Some(crypto::chacha_sealed(key, counter_nonce(counter), header, plain))
    } else {
        None
    }
}

/// What [`session_open`] gives, where the frame is genuine.
pub open spec fn session_opened(
    key: Seq<u8>,
    counter: u64,
    header: Seq<u8>,
    frame: Seq<u8>,
) -> Option<Seq<u8>> {
    if frame.len() <= crypto::LONGEST + crypto::TAG {
        crypto::chacha_opened(key, counter_nonce(counter), header, frame)
    } else {
        None
    }
}

/// Encrypt a session frame. The nonce is the counter, and the header is authenticated with it:
/// what is sealed opens under the same key, counter and header.
pub fn session_seal(key: &[u8; 32], counter: u64, header: &[u8], plain: &[u8]) -> (r: Result<
    Vec<u8>,
    String,
>)
    ensures
        match r {
            Ok(frame) => {
                &&& session_sealed(key@, counter, header@, plain@) == Some(frame@)
                &&& frame@.len() == plain@.len() + crypto::TAG
                &&& session_opened(key@, counter, header@, frame@) == Some(plain@)
            },
            Err(e) => session_sealed(key@, counter, header@, plain@) is None && e@
                == "could not encrypt a frame"@,
        },
{
    if plain.len() as u64 > crypto::LONGEST {
        return Err("could not encrypt a frame".to_string());
    }
    match crypto::chacha_seal(key, &nonce_for(counter), header, plain) {
        Some(frame) => Ok(frame),
        None => Err("could not encrypt a frame".to_string()),
    }
}

/// Decrypt a session frame.
pub fn session_open(key: &[u8; 32], counter: u64, header: &[u8], sealed: &[u8]) -> (r: Result<
    Vec<u8>,
    String,
>)
    ensures
        match r {
            Ok(plain) => session_opened(key@, counter, header@, sealed@) == Some(plain@),
            Err(e) => session_opened(key@, counter, header@, sealed@) is None && e@
                == out_of_step(),
        },
{
    if sealed.len() as u64 > crypto::LONGEST + crypto::TAG as u64 {
        return Err("could not decrypt a frame — the session is out of step".to_string());
    }
    match crypto::chacha_open(key, &nonce_for(counter), header, sealed) {
        Some(plain) => Ok(plain),
        None => Err("could not decrypt a frame — the session is out of step".to_string()),
    }
}

/// The complaint that a session frame did not open.
pub open spec fn out_of_step() -> Seq<char> {
    "could not decrypt a frame — the session is out of step"@
}

// --------------------------------------------------------------------------------------------
// Pair Setup
// --------------------------------------------------------------------------------------------

/// The bytes of a text.
pub open spec fn utf8(t: Seq<char>) -> Seq<u8> {
    encode_utf8(t)
}

/// `M1`: ask to start.
pub open spec fn start_message() -> Seq<u8> {
    tlv8::encoded(seq![(tlv8::METHOD, seq![0u8]), (tlv8::STATE, seq![1u8])])
}

/// `M1`: ask to start. The Apple TV answers with a salt, a public value, and a PIN on screen.
pub fn setup_start() -> (r: Vec<u8>)
    ensures
        r@ == start_message(),
{
    let items = vec![(tlv8::METHOD, bytes::one(0)), (tlv8::STATE, bytes::one(1))];
    assert(tlv8::entries(items@) =~= seq![(tlv8::METHOD, seq![0u8]), (tlv8::STATE, seq![1u8])]);
    tlv8::encode(items.as_slice())
}

/// The digits of a PIN, without the dashes and spaces that it is printed with.
pub open spec fn digits(pin: Seq<char>) -> Seq<char>
    decreases pin.len(),
{
    if pin.len() == 0 {
        seq![]
    } else if text::is_digit(pin.last()) {
        digits(pin.drop_last()).push(pin.last())
    } else {
        digits(pin.drop_last())
    }
}

/// The digits of a text are its decimal digits, every one of them and nothing else, in order. A
/// text of nothing but decimal digits is its own digits. It is a PIN exactly where there are four
/// of them, or six or eight.
pub proof fn law_digits_of_a_text(pin: Seq<char>)
    ensures
        digits(pin) == pin.filter(|c: char| '0' <= c && c <= '9'),
        (forall|i: int| 0 <= i < pin.len() ==> '0' <= #[trigger] pin[i] && pin[i] <= '9')
            ==> digits(pin) == pin,
        is_pin(pin) <==> {
            let n = pin.filter(|c: char| '0' <= c && c <= '9').len();
            n == 4 || n == 6 || n == 8
        },
    decreases pin.len(),
{
    reveal(Seq::filter);
    if pin.len() > 0 {
        law_digits_of_a_text(pin.drop_last());
        if forall|i: int| 0 <= i < pin.len() ==> '0' <= #[trigger] pin[i] && pin[i] <= '9' {
            assert forall|i: int| 0 <= i < pin.drop_last().len() implies '0'
                <= #[trigger] pin.drop_last()[i] && pin.drop_last()[i] <= '9' by {
                assert(pin.drop_last()[i] == pin[i]);
            }
            assert(digits(pin) =~= pin);
        }
    } else {
        assert(digits(pin) =~= pin);
    }
}

/// A PIN has four digits, or six or eight on an older device.
pub open spec fn is_pin(pin: Seq<char>) -> bool {
    digits(pin).len() == 4 || digits(pin).len() == 6 || digits(pin).len() == 8
}

fn digits_of(pin: &str) -> (r: String)
    ensures
        r@ == digits(pin@),
{
    let chars = text::chars_of(pin);
    let mut out = String::new();
    let mut i: usize = 0;
    assert(out@ =~= digits(pin@.take(0)));
    while i < chars.len()
        invariant
            chars@ == pin@,
            i <= pin@.len(),
            out@ == digits(pin@.take(i as int)),
        decreases pin@.len() - i,
    {
        assert(pin@.take(i + 1).drop_last() =~= pin@.take(i as int));
        let c = chars[i];
        if '0' <= c && c <= '9' {
            out.push(c);
        }
        i += 1;
    }
    assert(pin@.take(pin@.len() as int) =~= pin@);
    out
}

/// Where two byte strings differ, as far as both go.
pub open spec fn xor(a: Seq<u8>, b: Seq<u8>) -> Seq<u8> {
    Seq::new(if a.len() < b.len() { a.len() } else { b.len() }, |i: int| a[i] ^ b[i])
}

/// What our proof is the hash of: `H(N) xor H(g) | H(I) | s | A | B | K`.
pub open spec fn proof_input(
    h_n: Seq<u8>,
    h_g: Seq<u8>,
    h_i: Seq<u8>,
    salt: Seq<u8>,
    a: Seq<u8>,
    b: Seq<u8>,
    key: Seq<u8>,
) -> Seq<u8> {
    xor(h_n, h_g) + h_i + salt + a + b + key
}

/// What our proof is the hash of, from the three hashes that go into it and the exchange.
pub fn proof_message(
    h_n: &[u8],
    h_g: &[u8],
    h_i: &[u8],
    salt: &[u8],
    a: &[u8],
    b: &[u8],
    key: &[u8],
) -> (r: Vec<u8>)
    ensures
        r@ == proof_input(h_n@, h_g@, h_i@, salt@, a@, b@, key@),
{
    let mut out: Vec<u8> = Vec::new();
    let mut i: usize = 0;
    while i < h_n.len() && i < h_g.len()
        invariant
            i <= h_n@.len(),
            i <= h_g@.len(),
            out@ == xor(h_n@, h_g@).take(i as int),
        decreases h_n@.len() - i,
    {
        out.push(h_n[i] ^ h_g[i]);
        i += 1;
        assert(out@ =~= xor(h_n@, h_g@).take(i as int));
    }
    assert(out@ =~= xor(h_n@, h_g@));
    bytes::append(&mut out, h_i);
    bytes::append(&mut out, salt);
    bytes::append(&mut out, a);
    bytes::append(&mut out, b);
    bytes::append(&mut out, key);
    out
}

/// What both sides of Pair Setup know in the end.
pub struct Agreement {
    /// Our public value, padded.
    pub public: Seq<u8>,
    /// The hash of the premaster secret. Everything after it is keyed by this.
    pub key: Seq<u8>,
    /// Our proof that we know the PIN.
    pub proven: Seq<u8>,
}

/// The width of the group's numbers in bytes.
pub const WIDTH: usize = 384;

/// The SRP exchange for a PIN's digits, the device's salt and public value `b`, and our secret
/// exponent `a`.
pub open spec fn agree(pin: Seq<char>, salt: Seq<u8>, b: nat, a: nat) -> Agreement {
    let public = bytes::padded(crypto::power(crypto::generator(), a), WIDTH as nat);
    let theirs = bytes::padded(b, WIDTH as nat);
    let u = bytes::be_nat(crypto::sha512_digest(public + theirs));
    let identity = crypto::sha512_digest(utf8("Pair-Setup"@) + seq![58u8] + utf8(pin));
    let x = bytes::be_nat(crypto::sha512_digest(salt + identity));
    let secret = crypto::premaster(b, crypto::multiplier(), x, a, u);
    let key = crypto::sha512_digest(bytes::be_bytes(secret));
    Agreement {
        public,
        key,
        proven: crypto::sha512_digest(
            proof_input(
                crypto::sha512_digest(bytes::be_bytes(crypto::modulus())),
                crypto::sha512_digest(bytes::be_bytes(crypto::generator())),
                crypto::sha512_digest(utf8("Pair-Setup"@)),
                salt,
                public,
                theirs,
                key,
            ),
        ),
    }
}

/// `M3` for a public value and a proof.
pub open spec fn prove_message(public: Seq<u8>, proven: Seq<u8>) -> Seq<u8> {
    tlv8::encoded(
        seq![
            (tlv8::STATE, seq![3u8]),
            (tlv8::PUBLIC_KEY, public),
            (tlv8::PROOF, proven),
        ],
    )
}

/// The client's half of Pair Setup, carried across the round trips.
pub struct Setup {
    /// Our public value, padded.
    pub a_pub_padded: Vec<u8>,
    /// The hash of the premaster secret.
    pub session_key: Vec<u8>,
    /// The proof that was sent.
    pub proof_sent: Vec<u8>,
    pub client_seed: [u8; 32],
    pub client_id: Vec<u8>,
}

impl Setup {
    /// What was agreed on.
    pub open spec fn agreement(&self) -> Agreement {
        Agreement {
            public: self.a_pub_padded@,
            key: self.session_key@,
            proven: self.proof_sent@,
        }
    }
}

/// The complaint about a text that is no PIN.
pub open spec fn not_a_pin() -> Seq<char> {
    "the PIN on the Apple TV is 4 digits (or 6 or 8 on older ones)"@
}

/// The complaint about a public value that is nothing in the group.
pub open spec fn bad_public() -> Seq<char> {
    "the Apple TV sent an invalid SRP public key"@
}

/// Why Pair Setup cannot go on from a PIN and the device's public value, if it cannot.
pub open spec fn setup_refusal(pin: Seq<char>, device_pub: Seq<u8>) -> Option<Seq<char>> {
    if !is_pin(pin) {
        Some(not_a_pin())
    } else if bytes::be_nat(device_pub) % crypto::modulus() == 0 {
        Some(bad_public())
    } else {
        None
    }
}

/// `M3`: prove that we know the PIN, given the salt and the device's public value.
///
/// The caller owns every source of chance: the same arguments give the same exchange, so it can
/// be rebuilt at a later step. Our public value always has the full width.
pub fn setup_prove(
    pin: &str,
    salt: &[u8],
    device_pub: &[u8],
    seed: [u8; 32],
    client_id: Vec<u8>,
) -> (r: Result<(Setup, Vec<u8>), String>)
    ensures
        match r {
            Ok((setup, tlv)) => {
                &&& setup_refusal(pin@, device_pub@) is None
                &&& setup.agreement() == agree(
                    digits(pin@),
                    salt@,
                    bytes::be_nat(device_pub@),
                    bytes::be_nat(seed@),
                )
                &&& setup.agreement().public.len() == WIDTH
                &&& setup.agreement().key.len() == 64
                &&& setup.agreement().proven.len() == 64
                &&& setup.client_seed@ == seed@
                &&& setup.client_id@ == client_id@
                &&& tlv@ == prove_message(setup.agreement().public, setup.agreement().proven)
            },
            Err(e) => setup_refusal(pin@, device_pub@) == Some(e@),
        },
{
    let code = digits_of(pin);
    let n: usize = text::chars_of(code.as_str()).len();
    if n != 4 && n != 6 && n != 8 {
        return Err("the PIN on the Apple TV is 4 digits (or 6 or 8 on older ones)".to_string());
    }
    let modulus = crypto::group_modulus();
    let width: usize = modulus.len();
    proof {
        reveal(crypto::modulus);
        bytes::law_be_round_trip(crypto::modulus());
    }
    let rest = crypto::remainder(device_pub, modulus.as_slice());
    let ghost b = bytes::be_nat(device_pub@);
    let ghost a = bytes::be_nat(seed@);
    let zero: [u8; 1] = [0u8];
    proof {
        bytes::law_be_round_trip(b % crypto::modulus());
        assert(zero@ =~= bytes::be_bytes(0));
        bytes::law_be_round_trip(0);
    }
    if bytes::same(rest.as_slice(), zero.as_slice()) {
        return Err("the Apple TV sent an invalid SRP public key".to_string());
    }
    // The seed doubles as the secret exponent, which only has to be secret and unpredictable.
    let a_pub = crypto::srp_public(seed.as_slice());
    let a_padded = pad(a_pub.as_slice(), width);
    let b_padded = pad(device_pub, width);
    proof {
        let public = crypto::power(crypto::generator(), a);
        bytes::law_be_round_trip(public);
        bytes::lemma_be_bytes_grow(public, crypto::modulus());
        bytes::law_padding_keeps_the_number(public, WIDTH as nat);
    }
    let mut both = bytes::copy(a_padded.as_slice());
    bytes::append(&mut both, b_padded.as_slice());
    let u = crypto::sha512(both.as_slice());
    let k = crypto::srp_multiplier();
    let identity = crypto::srp_identity("Pair-Setup".as_bytes(), code.as_str().as_bytes());
    let x = crypto::srp_private(identity.as_slice(), salt);
    proof {
        bytes::law_be_round_trip(crypto::multiplier());
        bytes::law_be_round_trip(bytes::be_nat(crypto::sha512_digest(salt@ + identity@)));
    }
    let premaster = crypto::srp_premaster(
        device_pub,
        k.as_slice(),
        x.as_slice(),
        seed.as_slice(),
        u.as_slice(),
    );
    let session_key = crypto::sha512(premaster.as_slice());
    let h_n = crypto::sha512(modulus.as_slice());
    let h_g = crypto::sha512(crypto::group_generator().as_slice());
    let h_i = crypto::sha512("Pair-Setup".as_bytes());
    let message = proof_message(
        h_n.as_slice(),
        h_g.as_slice(),
        h_i.as_slice(),
        salt,
        a_padded.as_slice(),
        b_padded.as_slice(),
        session_key.as_slice(),
    );
    let proof_sent = crypto::sha512(message.as_slice());
    let items = vec![
        (tlv8::STATE, bytes::one(3)),
        (tlv8::PUBLIC_KEY, bytes::copy(a_padded.as_slice())),
        (tlv8::PROOF, bytes::copy(proof_sent.as_slice())),
    ];
    assert(tlv8::entries(items@) =~= seq![
        (tlv8::STATE, seq![3u8]),
        (tlv8::PUBLIC_KEY, a_padded@),
        (tlv8::PROOF, proof_sent@),
    ]);
    let tlv = tlv8::encode(items.as_slice());
    Ok(
        (
            Setup {
                a_pub_padded: a_padded,
                session_key,
                proof_sent,
                client_seed: seed,
                client_id,
            },
            tlv,
        ),
    )
}

/// The key that the identities are exchanged under.
pub open spec fn setup_key(key: Seq<u8>) -> Seq<u8> {
    crypto::hkdf_expanded(
        utf8("Pair-Setup-Encrypt-Salt"@),
        utf8("Pair-Setup-Encrypt-Info"@),
        key,
    )
}

/// The proof that a device sends which knows the PIN too.
pub open spec fn device_proof_of(agreed: Agreement) -> Seq<u8> {
    crypto::sha512_digest(agreed.public + agreed.proven + agreed.key)
}

/// What we sign to hand over our identity.
pub open spec fn identity_signed(key: Seq<u8>, client_id: Seq<u8>, ltpk: Seq<u8>) -> Seq<u8> {
    crypto::hkdf_expanded(
        utf8("Pair-Setup-Controller-Sign-Salt"@),
        utf8("Pair-Setup-Controller-Sign-Info"@),
        key,
    ) + client_id + ltpk
}

/// Our identity as it goes into `M5`: identifier, long-term key, signature, and the name that
/// appears on the device, as an OPACK blob.
pub open spec fn identity(
    client_id: Seq<u8>,
    ltpk: Seq<u8>,
    signature: Seq<u8>,
    name: Seq<char>,
) -> Seq<u8> {
    tlv8::encoded(
        seq![
            (tlv8::IDENTIFIER, client_id),
            (tlv8::PUBLIC_KEY, ltpk),
            (tlv8::SIGNATURE, signature),
            (tlv8::NAME, model::packed(Node::Dict(seq![("name"@, Node::Str(name))]))),
        ],
    )
}

/// Our identity as it goes into `M5`, signed with our seed.
pub open spec fn our_identity(
    key: Seq<u8>,
    seed: Seq<u8>,
    client_id: Seq<u8>,
    name: Seq<char>,
) -> Seq<u8> {
    let ltpk = crypto::ed25519_public(seed);
    identity(
        client_id,
        ltpk,
        crypto::ed25519_signature(seed, identity_signed(key, client_id, ltpk)),
        name,
    )
}

/// A numbered message that carries sealed data.
pub open spec fn sealed_message(state: u8, data: Seq<u8>) -> Seq<u8> {
    tlv8::encoded(seq![(tlv8::STATE, seq![state]), (tlv8::ENCRYPTED_DATA, data)])
}

/// Our identity as it goes into `M5`, from its parts.
pub fn identity_message(client_id: &[u8], ltpk: &[u8], signature: &[u8], name: &str) -> (r: Vec<u8>)
    ensures
        r@ == identity(client_id@, ltpk@, signature@, name@),
{
    let pairs = [("name", opack::s(name))];
    proof {
        let entries = seq![("name"@, Node::Str(name@))];
        assert(opack::named(pairs@) =~= entries);
        assert(entries.drop_last() =~= seq![]);
        assert(strmap::gather(entries.drop_last()) =~= seq![]);
        assert(strmap::gather(entries) =~= entries);
    }
    let value = opack::dict(pairs);
    let blob = opack::pack(&value);
    let items = vec![
        (tlv8::IDENTIFIER, bytes::copy(client_id)),
        (tlv8::PUBLIC_KEY, bytes::copy(ltpk)),
        (tlv8::SIGNATURE, bytes::copy(signature)),
        (tlv8::NAME, blob),
    ];
    assert(tlv8::entries(items@) =~= seq![
        (tlv8::IDENTIFIER, client_id@),
        (tlv8::PUBLIC_KEY, ltpk@),
        (tlv8::SIGNATURE, signature@),
        (tlv8::NAME, blob@),
    ]);
    tlv8::encode(items.as_slice())
}

/// A numbered message that carries sealed data.
fn carry(state: u8, data: Vec<u8>) -> (r: Vec<u8>)
    ensures
        r@ == sealed_message(state, data@),
{
    let ghost d = data@;
    let items = vec![(tlv8::STATE, bytes::one(state)), (tlv8::ENCRYPTED_DATA, data)];
    assert(tlv8::entries(items@) =~= seq![(tlv8::STATE, seq![state]), (tlv8::ENCRYPTED_DATA, d)]);
    tlv8::encode(items.as_slice())
}

/// The complaint that the device does not know the PIN.
pub open spec fn wrong_proof() -> Seq<char> {
    "the Apple TV's proof did not match — wrong PIN"@
}

/// What is signed with a seed checks out under the seed's public key.
pub open spec fn signs(seed: Seq<u8>, message: Seq<u8>) -> bool {
    crypto::ed25519_verifies(
        crypto::ed25519_public(seed),
        message,
        crypto::ed25519_signature(seed, message),
    )
}

/// What is sealed under a key and a label opens under them again.
pub open spec fn opens_again(key: Seq<u8>, label: Seq<u8>, plain: Seq<u8>) -> bool {
    sealed(key, label, plain) matches Some(message) && opened(key, label, message) == Some(plain)
}

/// What `M5` is, or why there is none.
pub open spec fn exchanged(
    agreed: Agreement,
    seed: Seq<u8>,
    client_id: Seq<u8>,
    device_proof: Seq<u8>,
    name: Seq<char>,
) -> Result<Seq<u8>, Seq<char>> {
    if device_proof != device_proof_of(agreed) {
        Err(wrong_proof())
    } else {
        match sealed(
            setup_key(agreed.key),
            utf8("PS-Msg05"@),
            our_identity(agreed.key, seed, client_id, name),
        ) {
            Some(data) => Ok(sealed_message(5, data)),
            None => Err("could not encrypt the pairing message"@),
        }
    }
}

/// What the device's identity, opened, makes of the pairing, or what is missing in it.
pub open spec fn finished(plain: Seq<u8>, client_id: Seq<u8>, seed: Seq<u8>) -> Result<
    PairingView,
    Seq<char>,
> {
    let items = tlv8::decoded(plain);
    match (tlv8::lookup(items, tlv8::IDENTIFIER), tlv8::lookup(items, tlv8::PUBLIC_KEY)) {
        (None, _) => Err("the Apple TV sent no identifier"@),
        (_, None) => Err("the Apple TV sent no public key"@),
        (Some(device_id), Some(device_ltpk)) => Ok(
            PairingView { device_id, device_ltpk, client_id, client_sk: seed },
        ),
    }
}

/// The pairing that the device's identity, opened, makes with our own.
pub fn pairing_from(plain: &[u8], client_id: &[u8], seed: [u8; 32]) -> (r: Result<Pairing, String>)
    ensures
        match (r, finished(plain@, client_id@, seed@)) {
            (Ok(pairing), Ok(p)) => pairing@ == p,
            (Err(e), Err(why)) => e@ == why,
            _ => false,
        },
{
    let tlv = tlv8::decode(plain);
    let device_id = match tlv8::get(tlv.as_slice(), tlv8::IDENTIFIER) {
        Some(v) => bytes::copy(v),
        None => {
            return Err("the Apple TV sent no identifier".to_string());
        },
    };
    let device_ltpk = match tlv8::get(tlv.as_slice(), tlv8::PUBLIC_KEY) {
        Some(v) => bytes::copy(v),
        None => {
            return Err("the Apple TV sent no public key".to_string());
        },
    };
    Ok(Pairing { device_id, device_ltpk, client_id: bytes::copy(client_id), client_sk: seed })
}

/// Eight characters of ASCII are eight bytes.
proof fn lemma_labels()
    ensures
        utf8("PS-Msg05"@).len() == 8,
        utf8("PS-Msg06"@).len() == 8,
        utf8("PV-Msg02"@).len() == 8,
        utf8("PV-Msg03"@).len() == 8,
{
    reveal_strlit("PS-Msg05");
    reveal_strlit("PS-Msg06");
    reveal_strlit("PV-Msg02");
    reveal_strlit("PV-Msg03");
    is_ascii_chars_encode_utf8("PS-Msg05"@);
    is_ascii_chars_encode_utf8("PS-Msg06"@);
    is_ascii_chars_encode_utf8("PV-Msg02"@);
    is_ascii_chars_encode_utf8("PV-Msg03"@);
}

impl Setup {
    /// `M5`: check that the device proved that it knows the PIN too, and then hand over our
    /// identity. Without the check anything that can echo a salt would be handed it. The
    /// signature in it checks out under the public key beside it, and what is sealed in it opens
    /// for whoever has the same key.
    pub fn setup_exchange(&self, device_proof: &[u8], name: &str) -> (r: Result<Vec<u8>, String>)
        ensures
            match (
                r,
                exchanged(
                    self.agreement(),
                    self.client_seed@,
                    self.client_id@,
                    device_proof@,
                    name@,
                ),
            ) {
                (Ok(message), Ok(m)) => message@ == m,
                (Err(e), Err(why)) => e@ == why,
                _ => false,
            },
            r is Ok ==> signs(
                self.client_seed@,
                identity_signed(
                    self.session_key@,
                    self.client_id@,
                    crypto::ed25519_public(self.client_seed@),
                ),
            ),
            r is Ok ==> opens_again(
                setup_key(self.session_key@),
                utf8("PS-Msg05"@),
                our_identity(
                    self.session_key@,
                    self.client_seed@,
                    self.client_id@,
                    name@,
                ),
            ),
    {
        let expect = crypto::sha512(
            bytes::concat3(
                self.a_pub_padded.as_slice(),
                self.proof_sent.as_slice(),
                self.session_key.as_slice(),
            ).as_slice(),
        );
        if !bytes::same(device_proof, expect.as_slice()) {
            return Err("the Apple TV's proof did not match — wrong PIN".to_string());
        }
        let ltpk = crypto::signing_public(&self.client_seed);
        let controller_x = hkdf(
            "Pair-Setup-Controller-Sign-Salt".as_bytes(),
            "Pair-Setup-Controller-Sign-Info".as_bytes(),
            self.session_key.as_slice(),
        );
        let to_sign = bytes::concat3(
            controller_x.as_slice(),
            self.client_id.as_slice(),
            ltpk.as_slice(),
        );
        let signature = crypto::sign(&self.client_seed, to_sign.as_slice());
        let inner = identity_message(
            self.client_id.as_slice(),
            ltpk.as_slice(),
            signature.as_slice(),
            name,
        );
        let key = hkdf(
            "Pair-Setup-Encrypt-Salt".as_bytes(),
            "Pair-Setup-Encrypt-Info".as_bytes(),
            self.session_key.as_slice(),
        );
        proof {
            lemma_labels();
        }
        match seal(&key, "PS-Msg05".as_bytes(), inner.as_slice()) {
            Ok(data) => Ok(carry(5, data)),
            Err(e) => Err(e),
        }
    }

    /// `M6`: open the device's identity and keep it. This is the pairing.
    pub fn setup_finish(&self, encrypted: &[u8]) -> (r: Result<Pairing, String>)
        ensures
            match opened(setup_key(self.session_key@), utf8("PS-Msg06"@), encrypted@) {
                None => r is Err && r->Err_0@ == unopened(),
                Some(plain) => match (r, finished(plain, self.client_id@, self.client_seed@)) {
                    (Ok(pairing), Ok(p)) => pairing@ == p,
                    (Err(e), Err(why)) => e@ == why,
                    _ => false,
                },
            },
    {
        let key = hkdf(
            "Pair-Setup-Encrypt-Salt".as_bytes(),
            "Pair-Setup-Encrypt-Info".as_bytes(),
            self.session_key.as_slice(),
        );
        proof {
            lemma_labels();
        }
        match open(&key, "PS-Msg06".as_bytes(), encrypted) {
            Ok(plain) => pairing_from(
                plain.as_slice(),
                self.client_id.as_slice(),
                self.client_seed,
            ),
            Err(e) => Err(e),
        }
    }
}

// --------------------------------------------------------------------------------------------
// Pair Verify
// --------------------------------------------------------------------------------------------

/// The session keys are derived with an empty salt and two infos, which are named from the
/// device's point of view: ours is the client's.
pub const SESSION_SALT: &'static str = "";

pub const WRITE_INFO: &'static str = "ClientEncrypt-main";

pub const READ_INFO: &'static str = "ServerEncrypt-main";

/// The client's half of Pair Verify.
pub struct Verify {
    /// Our ephemeral X25519 secret.
    pub secret: [u8; 32],
    /// Its public key.
    pub public: [u8; 32],
}

/// `M1` of Pair Verify for a public key.
pub open spec fn offer(public: Seq<u8>) -> Seq<u8> {
    tlv8::encoded(seq![(tlv8::STATE, seq![1u8]), (tlv8::PUBLIC_KEY, public)])
}

/// `M1`: offer an ephemeral X25519 public key.
pub fn verify_start(seed: [u8; 32]) -> (r: (Verify, Vec<u8>))
    ensures
        r.0.secret@ == seed@,
        r.0.public@ == crypto::x25519_public(seed@),
        r.1@ == offer(r.0.public@),
{
    let public = crypto::exchange_public(&seed);
    let items = vec![
        (tlv8::STATE, bytes::one(1)),
        (tlv8::PUBLIC_KEY, bytes::copy(public.as_slice())),
    ];
    assert(tlv8::entries(items@) =~= seq![
        (tlv8::STATE, seq![1u8]),
        (tlv8::PUBLIC_KEY, public@),
    ]);
    let tlv = tlv8::encode(items.as_slice());
    (Verify { secret: seed, public }, tlv)
}

/// The signature in the device's reply, opened, or why the reply is not one of the device with
/// the identifier `device_id`.
pub open spec fn reply_signature(plain: Seq<u8>, device_id: Seq<u8>) -> Result<
    Seq<u8>,
    Seq<char>,
> {
    let items = tlv8::decoded(plain);
    match (tlv8::lookup(items, tlv8::IDENTIFIER), tlv8::lookup(items, tlv8::SIGNATURE)) {
        (None, _) => Err("no identifier in the reply"@),
        (_, None) => Err("no signature in the reply"@),
        (Some(identifier), Some(signature)) => if identifier != device_id {
            Err("this is a different Apple TV than the one that was paired"@)
        } else {
            Ok(signature)
        },
    }
}

/// Read the device's reply once it is opened: its signature, if it is the device that was paired.
pub fn read_reply(plain: &[u8], device_id: &[u8]) -> (r: Result<Vec<u8>, String>)
    ensures
        match (r, reply_signature(plain@, device_id@)) {
            (Ok(signature), Ok(s)) => signature@ == s,
            (Err(e), Err(why)) => e@ == why,
            _ => false,
        },
{
    let tlv = tlv8::decode(plain);
    let identifier = match tlv8::get(tlv.as_slice(), tlv8::IDENTIFIER) {
        Some(v) => v,
        None => {
            return Err("no identifier in the reply".to_string());
        },
    };
    let signature = match tlv8::get(tlv.as_slice(), tlv8::SIGNATURE) {
        Some(v) => v,
        None => {
            return Err("no signature in the reply".to_string());
        },
    };
    if !bytes::same(identifier, device_id) {
        return Err("this is a different Apple TV than the one that was paired".to_string());
    }
    Ok(bytes::copy(signature))
}

/// Why a signature is not the paired device's over `message`, if it is not.
pub open spec fn signature_refusal(ltpk: Seq<u8>, message: Seq<u8>, signature: Seq<u8>) -> Option<
    Seq<char>,
> {
    if ltpk.len() != 32 {
        Some("the stored key for this Apple TV is malformed"@)
    } else if signature.len() != 64 {
        Some("the Apple TV sent a malformed signature"@)
    } else if !crypto::ed25519_is_key(ltpk) {
        Some("the stored key for this Apple TV is not a valid key"@)
    } else if !crypto::ed25519_verifies(ltpk, message, signature) {
        Some("the Apple TV's signature did not check out — it may have been reset"@)
    } else {
        None
    }
}

fn check_signature(ltpk: &[u8], message: &[u8], signature: &[u8]) -> (r: Result<(), String>)
    ensures
        match r {
            Ok(_) => signature_refusal(ltpk@, message@, signature@) is None,
            Err(e) => signature_refusal(ltpk@, message@, signature@) == Some(e@),
        },
{
    let key = match bytes::to_32(ltpk) {
        Some(k) => k,
        None => {
            return Err("the stored key for this Apple TV is malformed".to_string());
        },
    };
    let sig = match bytes::to_64(signature) {
        Some(s) => s,
        None => {
            return Err("the Apple TV sent a malformed signature".to_string());
        },
    };
    if !crypto::is_verifying_key(&key) {
        return Err("the stored key for this Apple TV is not a valid key".to_string());
    }
    if !crypto::verifies(&key, message, &sig) {
        return Err(
            "the Apple TV's signature did not check out — it may have been reset".to_string(),
        );
    }
    Ok(())
}

/// The key of the verification messages, from the shared secret.
pub open spec fn verify_key(shared: Seq<u8>) -> Seq<u8> {
    crypto::hkdf_expanded(
        utf8("Pair-Verify-Encrypt-Salt"@),
        utf8("Pair-Verify-Encrypt-Info"@),
        shared,
    )
}

/// What we seal into `M3`: our identifier and our signature over the mirror image of what the
/// device signed.
pub open spec fn answer(pairing: PairingView, public: Seq<u8>, device_pub: Seq<u8>) -> Seq<u8> {
    tlv8::encoded(
        seq![
            (tlv8::IDENTIFIER, pairing.client_id),
            (
                tlv8::SIGNATURE,
                crypto::ed25519_signature(
                    pairing.client_sk,
                    public + pairing.client_id + device_pub,
                ),
            ),
        ],
    )
}

/// A session key, from the shared secret.
pub open spec fn session_key(info: Seq<char>, shared: Seq<u8>) -> Seq<u8> {
    crypto::hkdf_expanded(utf8(SESSION_SALT@), utf8(info), shared)
}

/// What Pair Verify comes to: `M3` and the keys to write and to read with, or why the device is
/// refused. It signs its ephemeral key, its identifier and our ephemeral key.
pub open spec fn verified(
    secret: Seq<u8>,
    public: Seq<u8>,
    pairing: PairingView,
    device_pub: Seq<u8>,
    encrypted: Seq<u8>,
) -> Result<(Seq<u8>, Seq<u8>, Seq<u8>), Seq<char>> {
    let shared = crypto::x25519_shared(secret, device_pub);
    let key = verify_key(shared);
    if device_pub.len() != 32 {
        Err("the Apple TV sent a malformed public key"@)
    } else {
        match opened(key, utf8("PV-Msg02"@), encrypted) {
            None => Err(unopened()),
            Some(plain) => match reply_signature(plain, pairing.device_id) {
                Err(why) => Err(why),
                Ok(signature) => match signature_refusal(
                    pairing.device_ltpk,
                    device_pub + pairing.device_id + public,
                    signature,
                ) {
                    Some(why) => Err(why),
                    None => match sealed(
                        key,
                        utf8("PV-Msg03"@),
                        answer(pairing, public, device_pub),
                    ) {
                        None => Err("could not encrypt the pairing message"@),
                        Some(data) => Ok(
                            (
                                sealed_message(3, data),
                                session_key(WRITE_INFO@, shared),
                                session_key(READ_INFO@, shared),
                            ),
                        ),
                    },
                },
            },
        }
    }
}

impl Verify {
    /// `M3`: check that the device signed the exchange with the key that we paired with, and
    /// sign back. What we sign checks out under the key that the device kept of us, what we seal
    /// opens for whoever has the same key, and the device derives the same two session keys from
    /// its own secret and our public key.
    pub fn verify_prove(&self, pairing: &Pairing, device_pub: &[u8], encrypted: &[u8]) -> (r:
        Result<(Vec<u8>, [u8; 32], [u8; 32]), String>)
        ensures
            match (
                r,
                verified(self.secret@, self.public@, pairing@, device_pub@, encrypted@),
            ) {
                (Ok((message, write, read)), Ok((m, w, r))) => message@ == m && write@ == w
                    && read@ == r,
                (Err(e), Err(why)) => e@ == why,
                _ => false,
            },
            r is Ok ==> signs(
                pairing.client_sk@,
                self.public@ + pairing.client_id@ + device_pub@,
            ),
            r is Ok ==> opens_again(
                verify_key(crypto::x25519_shared(self.secret@, device_pub@)),
                utf8("PV-Msg03"@),
                answer(pairing@, self.public@, device_pub@),
            ),
            r is Ok && self.public@ == crypto::x25519_public(self.secret@) ==> forall|
                other: Seq<u8>,
            |
                other.len() == 32 && #[trigger] crypto::x25519_public(other) == device_pub@ ==> {
                    let shared = crypto::x25519_shared(other, self.public@);
                    &&& r->Ok_0.1@ == session_key(WRITE_INFO@, shared)
                    &&& r->Ok_0.2@ == session_key(READ_INFO@, shared)
                },
    {
        let theirs = match bytes::to_32(device_pub) {
            Some(k) => k,
            None => {
                return Err("the Apple TV sent a malformed public key".to_string());
            },
        };
        let shared = crypto::exchange_shared(&self.secret, &theirs);
        let key = hkdf(
            "Pair-Verify-Encrypt-Salt".as_bytes(),
            "Pair-Verify-Encrypt-Info".as_bytes(),
            shared.as_slice(),
        );
        proof {
            lemma_labels();
        }
        let plain = match open(&key, "PV-Msg02".as_bytes(), encrypted) {
            Ok(plain) => plain,
            Err(e) => {
                return Err(e);
            },
        };
        let signature = match read_reply(plain.as_slice(), pairing.device_id.as_slice()) {
            Ok(signature) => signature,
            Err(e) => {
                return Err(e);
            },
        };
        let signed = bytes::concat3(
            device_pub,
            pairing.device_id.as_slice(),
            self.public.as_slice(),
        );
        match check_signature(
            pairing.device_ltpk.as_slice(),
            signed.as_slice(),
            signature.as_slice(),
        ) {
            Ok(_) => {},
            Err(e) => {
                return Err(e);
            },
        }
        let ours = bytes::concat3(
            self.public.as_slice(),
            pairing.client_id.as_slice(),
            device_pub,
        );
        let signature = crypto::sign(&pairing.client_sk, ours.as_slice());
        let items = vec![
            (tlv8::IDENTIFIER, bytes::copy(pairing.client_id.as_slice())),
            (tlv8::SIGNATURE, bytes::copy(signature.as_slice())),
        ];
        assert(tlv8::entries(items@) =~= seq![
            (tlv8::IDENTIFIER, pairing.client_id@),
            (tlv8::SIGNATURE, signature@),
        ]);
        let inner = tlv8::encode(items.as_slice());
        let data = match seal(&key, "PV-Msg03".as_bytes(), inner.as_slice()) {
            Ok(data) => data,
            Err(e) => {
                return Err(e);
            },
        };
        let write = hkdf(SESSION_SALT.as_bytes(), WRITE_INFO.as_bytes(), shared.as_slice());
        let read = hkdf(SESSION_SALT.as_bytes(), READ_INFO.as_bytes(), shared.as_slice());
        Ok((carry(3, data), write, read))
    }
}

} // verus!
