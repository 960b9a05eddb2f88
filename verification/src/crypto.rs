//! The cryptography that comes from elsewhere: what each call is given and what is believed of it.

use crate::bytes;
use chacha20poly1305::aead::{Aead, KeyInit, Payload};
use chacha20poly1305::{ChaCha20Poly1305, Key, Nonce};
use ed25519_dalek::{Signature, Signer, SigningKey, Verifier, VerifyingKey};
use num_bigint::BigUint;
use rand_core::{OsRng, RngCore};
use sha2::{Digest, Sha512};
use vstd::arithmetic::power::*;
use vstd::prelude::*;
use x25519_dalek::{PublicKey, StaticSecret};

verus! {

// --------------------------------------------------------------------------------------------
// Hashing
// --------------------------------------------------------------------------------------------

/// The SHA-512 digest of a message.
pub uninterp spec fn sha512_digest(message: Seq<u8>) -> Seq<u8>;

/// `Sha512::digest` hashes a message to 64 bytes. The hash has the name [`sha512_digest`].
#[verifier::external_body]
pub(crate) fn sha512(message: &[u8]) -> (r: Vec<u8>)
    ensures
        r@ == sha512_digest(message@),
        r@.len() == 64,
{
    Sha512::digest(message).to_vec()
}

/// The 32 bytes that HKDF with SHA-512 derives from a secret.
pub uninterp spec fn hkdf_expanded(salt: Seq<u8>, info: Seq<u8>, secret: Seq<u8>) -> Seq<u8>;

/// `Hkdf::<Sha512>::new` and `expand` to 32 bytes, a length that SHA-512 allows. The key that
/// comes out has the name [`hkdf_expanded`].
#[verifier::external_body]
pub(crate) fn hkdf32(salt: &[u8], info: &[u8], secret: &[u8]) -> (r: [u8; 32])
    ensures
        r@ == hkdf_expanded(salt@, info@, secret@),
{
    let mut out = [0u8; 32];
    hkdf::Hkdf::<Sha512>::new(Some(salt), secret)
        .expand(info, &mut out)
        .expect("32 bytes is a valid HKDF length for SHA-512");
    out
}

// --------------------------------------------------------------------------------------------
// Sealing
// --------------------------------------------------------------------------------------------

/// The longest message that ChaCha20-Poly1305 takes: every block but the first that a 32-bit
/// counter can number.
pub const LONGEST: u64 = 274_877_906_816;

/// How many bytes sealing adds.
pub const TAG: usize = 16;

/// A message encrypted and authenticated, with its tag behind it.
pub uninterp spec fn chacha_sealed(
    key: Seq<u8>,
    nonce: Seq<u8>,
    aad: Seq<u8>,
    plain: Seq<u8>,
) -> Seq<u8>;

/// A sealed message opened, or none where its tag does not match.
pub uninterp spec fn chacha_opened(
    key: Seq<u8>,
    nonce: Seq<u8>,
    aad: Seq<u8>,
    sealed: Seq<u8>,
) -> Option<Seq<u8>>;

/// `ChaCha20Poly1305::encrypt`. Up to [`LONGEST`] bytes it succeeds; what it gives has the name
/// [`chacha_sealed`], is 16 bytes longer than the message, and opens to the message under the
/// same key, nonce and additional data.
#[verifier::external_body]
pub(crate) fn chacha_seal(key: &[u8; 32], nonce: &[u8; 12], aad: &[u8], plain: &[u8]) -> (r: Option<
    Vec<u8>,
>)
    requires
        plain@.len() <= LONGEST,
    ensures
        r is Some,
        r->0@ == chacha_sealed(key@, nonce@, aad@, plain@),
        r->0@.len() == plain@.len() + TAG,
        chacha_opened(key@, nonce@, aad@, r->0@) == Some(plain@),
{
    ChaCha20Poly1305::new(Key::from_slice(key))
        .encrypt(Nonce::from_slice(nonce), Payload { msg: plain, aad })
        .ok()
}

/// `ChaCha20Poly1305::decrypt`. What it gives has the name [`chacha_opened`]; an error of the
/// cipher is none.
#[verifier::external_body]
pub(crate) fn chacha_open(key: &[u8; 32], nonce: &[u8; 12], aad: &[u8], sealed: &[u8]) -> (r:
    Option<Vec<u8>>)
    requires
        sealed@.len() <= LONGEST + TAG,
    ensures
        match r {
            Some(plain) => chacha_opened(key@, nonce@, aad@, sealed@) == Some(plain@),
            None => chacha_opened(key@, nonce@, aad@, sealed@) is None,
        },
{
    ChaCha20Poly1305::new(Key::from_slice(key))
        .decrypt(Nonce::from_slice(nonce), Payload { msg: sealed, aad })
        .ok()
}

// --------------------------------------------------------------------------------------------
// Signatures and key agreement
// --------------------------------------------------------------------------------------------

/// The Ed25519 public key of a seed.
pub uninterp spec fn ed25519_public(seed: Seq<u8>) -> Seq<u8>;

/// `SigningKey::from_bytes` and `verifying_key`. The key has the name [`ed25519_public`], and is
/// one that `VerifyingKey::from_bytes` takes.
#[verifier::external_body]
pub(crate) fn signing_public(seed: &[u8; 32]) -> (r: [u8; 32])
    ensures
        r@ == ed25519_public(seed@),
        ed25519_is_key(r@),
{
    SigningKey::from_bytes(seed).verifying_key().to_bytes()
}

/// The Ed25519 signature of a message under a seed.
pub uninterp spec fn ed25519_signature(seed: Seq<u8>, message: Seq<u8>) -> Seq<u8>;

/// `SigningKey::sign`. The signature has the name [`ed25519_signature`], and `verify` accepts it
/// for the message under the public key of the seed.
#[verifier::external_body]
pub(crate) fn sign(seed: &[u8; 32], message: &[u8]) -> (r: [u8; 64])
    ensures
        r@ == ed25519_signature(seed@, message@),
        ed25519_verifies(ed25519_public(seed@), message@, r@),
{
    SigningKey::from_bytes(seed).sign(message).to_bytes()
}

/// Whether 32 bytes are an Ed25519 public key.
pub uninterp spec fn ed25519_is_key(key: Seq<u8>) -> bool;

/// `VerifyingKey::from_bytes` refuses bytes that are no point of the curve. Whether it does has
/// the name [`ed25519_is_key`].
#[verifier::external_body]
pub(crate) fn is_verifying_key(key: &[u8; 32]) -> (r: bool)
    ensures
        r == ed25519_is_key(key@),
{
    VerifyingKey::from_bytes(key).is_ok()
}

/// Whether a signature is one of a message under a public key.
pub uninterp spec fn ed25519_verifies(key: Seq<u8>, message: Seq<u8>, signature: Seq<u8>) -> bool;

/// `VerifyingKey::verify` under a key that is one. Whether it accepts has the name
/// [`ed25519_verifies`].
#[verifier::external_body]
pub(crate) fn verifies(key: &[u8; 32], message: &[u8], signature: &[u8; 64]) -> (r: bool)
    requires
        ed25519_is_key(key@),
    ensures
        r == ed25519_verifies(key@, message@, signature@),
{
    VerifyingKey::from_bytes(key)
        .expect("a valid key")
        .verify(message, &Signature::from_bytes(signature))
        .is_ok()
}

/// The X25519 public key of a secret.
pub uninterp spec fn x25519_public(secret: Seq<u8>) -> Seq<u8>;

/// `PublicKey::from` on a `StaticSecret`. The key has the name [`x25519_public`].
#[verifier::external_body]
pub(crate) fn exchange_public(secret: &[u8; 32]) -> (r: [u8; 32])
    ensures
        r@ == x25519_public(secret@),
{
    PublicKey::from(&StaticSecret::from(*secret)).to_bytes()
}

/// What a secret and another's public key have in common.
pub uninterp spec fn x25519_shared(secret: Seq<u8>, theirs: Seq<u8>) -> Seq<u8>;

/// `StaticSecret::diffie_hellman`. The shared secret has the name [`x25519_shared`]. Whoever holds
/// the secret of the other public key computes the same from ours.
#[verifier::external_body]
pub(crate) fn exchange_shared(secret: &[u8; 32], theirs: &[u8; 32]) -> (r: [u8; 32])
    ensures
        r@ == x25519_shared(secret@, theirs@),
        forall|other: Seq<u8>|
            other.len() == 32 && #[trigger] x25519_public(other) == theirs@ ==> r@
                == x25519_shared(other, x25519_public(secret@)),
{
    StaticSecret::from(*secret).diffie_hellman(&PublicKey::from(*theirs)).to_bytes()
}

// --------------------------------------------------------------------------------------------
// Chance
// --------------------------------------------------------------------------------------------

/// `OsRng::fill_bytes` fills 32 bytes from the operating system. Nothing is said of them: which
/// they are is chance. It does not return where the operating system has none to give.
#[verifier::external_body]
pub(crate) fn random32() -> (r: [u8; 32]) {
    let mut out = [0u8; 32];
    OsRng.fill_bytes(&mut out);
    out
}

// --------------------------------------------------------------------------------------------
// Big numbers and SRP
// --------------------------------------------------------------------------------------------

/// The prime of the 3072-bit group of RFC 5054.
#[verifier::opaque]
pub open spec fn modulus() -> nat {
    0xffffffffffffffffc90fdaa22168c234c4c6628b80dc1cd129024e088a67cc74020bbea63b139b22514a08798e3404ddef9519b3cd3a431b302b0a6df25f14374fe1356d6d51c245e485b576625e7ec6f44c42e9a637ed6b0bff5cb6f406b7edee386bfb5a899fa5ae9f24117c4b1fe649286651ece45b3dc2007cb8a163bf0598da48361c55d39a69163fa8fd24cf5f83655d23dca3ad961c62f356208552bb9ed529077096966d670c354e4abc9804f1746c08ca18217c32905e462e36ce3be39e772c180e86039b2783a2ec07a28fb5c55df06f4c52c9de2bcbf6955817183995497cea956ae515d2261898fa051015728e5a8aaac42dad33170d04507a33a85521abdf1cba64ecfb850458dbef0a8aea71575d060c7db3970f85a6e1e4c7abf5ae8cdb0933d71e8c94e04a25619dcee3d2261ad2ee6bf12ffa06d98a0864d87602733ec86a64521f2b18177b200cbbe117577a615d6c770988c0bad946e208e24fa074e5ab3143db5bfce0fd108e4b82d120a93ad2caffffffffffffffffnat
}

/// The generator of that group.
pub open spec fn generator() -> nat {
    5
}

/// `base` to the power `exponent`, in the group.
pub open spec fn power(base: nat, exponent: nat) -> nat {
    (pow(base as int, exponent) % (modulus() as int)) as nat
}

/// SRP's multiplier: the hash of the modulus and the generator padded to its width.
pub open spec fn multiplier() -> nat {
    bytes::be_nat(
        sha512_digest(
            bytes::be_bytes(modulus()) + bytes::padded(
                generator(),
                bytes::be_bytes(modulus()).len(),
            ),
        ),
    )
}

/// SRP's premaster secret on the side of the client.
pub open spec fn premaster(b: nat, k: nat, x: nat, a: nat, u: nat) -> nat {
    let masked = (k * power(generator(), x)) % modulus();
    let base = (modulus() + b - masked) as nat % modulus();
    power(base, u * x + a)
}

/// `BigUint::from_bytes_be` and `to_bytes_be`: the same number without leading zeros.
#[verifier::external_body]
pub(crate) fn shortest(number: &[u8]) -> (r: Vec<u8>)
    ensures
        r@ == bytes::be_bytes(bytes::be_nat(number@)),
{
    BigUint::from_bytes_be(number).to_bytes_be()
}

/// The remainder of `BigUint`, which is that of a division of natural numbers.
#[verifier::external_body]
pub(crate) fn remainder(number: &[u8], divisor: &[u8]) -> (r: Vec<u8>)
    requires
        bytes::be_nat(divisor@) > 0,
    ensures
        r@ == bytes::be_bytes(bytes::be_nat(number@) % bytes::be_nat(divisor@)),
{
    (BigUint::from_bytes_be(number) % BigUint::from_bytes_be(divisor)).to_bytes_be()
}

/// `srp::groups::G_3072`'s prime, which has 384 bytes.
#[verifier::external_body]
pub(crate) fn group_modulus() -> (r: Vec<u8>)
    ensures
        r@ == bytes::be_bytes(modulus()),
        r@.len() == 384,
{
    srp::groups::G_3072.n.to_bytes_be()
}

/// `srp::groups::G_3072`'s generator.
#[verifier::external_body]
pub(crate) fn group_generator() -> (r: Vec<u8>)
    ensures
        r@ == bytes::be_bytes(generator()),
{
    srp::groups::G_3072.g.to_bytes_be()
}

/// `SrpClient::compute_a_pub`: the generator to the power of a secret exponent.
#[verifier::external_body]
pub(crate) fn srp_public(a: &[u8]) -> (r: Vec<u8>)
    ensures
        r@ == bytes::be_bytes(power(generator(), bytes::be_nat(a@))),
{
    srp::client::SrpClient::<Sha512>::new(&srp::groups::G_3072)
        .compute_a_pub(&BigUint::from_bytes_be(a))
        .to_bytes_be()
}

/// `srp::utils::compute_k` in the 3072-bit group.
#[verifier::external_body]
pub(crate) fn srp_multiplier() -> (r: Vec<u8>)
    ensures
        r@ == bytes::be_bytes(multiplier()),
{
    srp::utils::compute_k::<Sha512>(&srp::groups::G_3072).to_bytes_be()
}

/// `SrpClient::compute_identity_hash`: the hash of the name, a colon and the password.
#[verifier::external_body]
pub(crate) fn srp_identity(name: &[u8], password: &[u8]) -> (r: Vec<u8>)
    ensures
        r@ == sha512_digest(name@ + seq![58u8] + password@),
{
    srp::client::SrpClient::<Sha512>::compute_identity_hash(name, password).to_vec()
}

/// `SrpClient::compute_x`: the hash of the salt and the identity hash, as a number.
#[verifier::external_body]
pub(crate) fn srp_private(identity: &[u8], salt: &[u8]) -> (r: Vec<u8>)
    ensures
        r@ == bytes::be_bytes(bytes::be_nat(sha512_digest(salt@ + identity@))),
{
    srp::client::SrpClient::<Sha512>::compute_x(identity, salt).to_bytes_be()
}

/// `SrpClient::compute_premaster_secret` in the 3072-bit group.
#[verifier::external_body]
pub(crate) fn srp_premaster(b: &[u8], k: &[u8], x: &[u8], a: &[u8], u: &[u8]) -> (r: Vec<u8>)
    ensures
        r@ == bytes::be_bytes(
            premaster(
                bytes::be_nat(b@),
                bytes::be_nat(k@),
                bytes::be_nat(x@),
                bytes::be_nat(a@),
                bytes::be_nat(u@),
            ),
        ),
{
    srp::client::SrpClient::<Sha512>::new(&srp::groups::G_3072)
        .compute_premaster_secret(
            &BigUint::from_bytes_be(b),
            &BigUint::from_bytes_be(k),
            &BigUint::from_bytes_be(x),
            &BigUint::from_bytes_be(a),
            &BigUint::from_bytes_be(u),
        )
        .to_bytes_be()
}

} // verus!
