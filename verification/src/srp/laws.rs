//! What holds of the handshake as a whole: both sides agree, and nobody else is let in.

use crate::bytes;
use crate::crypto;
use crate::opack::model;
use crate::opack::model::Node;
use crate::srp;
use crate::srp::{Agreement, PairingView};
use crate::tlv8;
use vstd::arithmetic::div_mod::*;
use vstd::arithmetic::mul::*;
use vstd::arithmetic::power::*;
use vstd::prelude::*;
use vstd::utf8::*;

verus! {

/// What the device computes with: the number that a PIN's digits and a salt come to.
pub open spec fn private_number(pin: Seq<char>, salt: Seq<u8>) -> nat {
    bytes::be_nat(
        crypto::sha512_digest(
            salt + crypto::sha512_digest(
                srp::utf8("Pair-Setup"@) + seq![58u8] + srp::utf8(pin),
            ),
        ),
    )
}

/// The device's verifier for such a number.
pub open spec fn pin_verifier(x: nat) -> nat {
    crypto::power(crypto::generator(), x)
}

/// The device's public value for its verifier and its secret exponent.
pub open spec fn device_public(v: nat, b: nat) -> nat {
    (crypto::multiplier() * v + crypto::power(crypto::generator(), b)) % crypto::modulus()
}

/// The premaster secret on the side of the device.
pub open spec fn device_secret(v: nat, b: nat, a_pub: nat, u: nat) -> nat {
    crypto::power(a_pub * crypto::power(v, u), b)
}

/// A power of a remainder is the power of the number, in the group.
proof fn lemma_power_of_remainder(base: nat, e: nat)
    ensures
        crypto::power(base % crypto::modulus(), e) == crypto::power(base, e),
        crypto::power(base, e) < crypto::modulus(),
{
    reveal(crypto::modulus);
    lemma_pow_mod_noop(base as int, e, crypto::modulus() as int);
    lemma_mod_bound(pow(base as int, e), crypto::modulus() as int);
}

/// A power of a power of the generator multiplies the exponents.
proof fn lemma_power_of_power(e: nat, f: nat)
    ensures
        crypto::power(crypto::power(crypto::generator(), e), f) == crypto::power(
            crypto::generator(),
            e * f,
        ),
{
    let g = crypto::generator() as int;
    reveal(crypto::modulus);
    lemma_pow_positive(g, e);
    lemma_power_of_remainder(pow(g, e) as nat, f);
    lemma_pow_multiplies(g, e, f);
}

/// A product of powers of the generator adds the exponents.
proof fn lemma_product_of_powers(e: nat, f: nat)
    ensures
        (crypto::power(crypto::generator(), e) * crypto::power(crypto::generator(), f))
            % crypto::modulus() == crypto::power(crypto::generator(), e + f),
{
    let g = crypto::generator() as int;
    reveal(crypto::modulus);
    lemma_pow_positive(g, e);
    lemma_pow_positive(g, f);
    lemma_pow_adds(g, e, f);
    lemma_mul_mod_noop(pow(g, e), pow(g, f), crypto::modulus() as int);
}

/// Taking the masked verifier off the device's public value leaves the power of its exponent.
proof fn lemma_unmasked(k: nat, v: nat, gb: nat)
    requires
        gb < crypto::modulus(),
    ensures
        ({
            let n = crypto::modulus();
            (n + (k * v + gb) % n - (k * v) % n) as nat % n == gb
        }),
{
    let n = crypto::modulus() as int;
    reveal(crypto::modulus);
    let kv = (k * v) as int;
    let sum = kv + gb;
    lemma_sub_mod_noop(sum, kv, n);
    lemma_small_mod(gb, crypto::modulus());
    assert((sum % n - kv % n) % n == gb as int % n);
    lemma_mod_bound(sum, n);
    lemma_mod_bound(kv, n);
    lemma_mod_add_multiples_vanish(sum % n - kv % n, n);
}

/// SRP comes out: a device that holds the verifier for the same number computes the same premaster
/// secret as the client, whatever the two secret exponents are.
pub proof fn law_both_sides_have_the_same_secret(x: nat, a: nat, b: nat, u: nat)
    ensures
        crypto::premaster(
            device_public(pin_verifier(x), b),
            crypto::multiplier(),
            x,
            a,
            u,
        ) == device_secret(pin_verifier(x), b, crypto::power(crypto::generator(), a), u),
{
    let g = crypto::generator();
    let n = crypto::modulus();
    let gb = crypto::power(g, b);
    let ga = crypto::power(g, a);
    let vu = crypto::power(pin_verifier(x), u);
    lemma_power_of_remainder(g, b);
    lemma_unmasked(crypto::multiplier(), pin_verifier(x), gb);
    // The client: g^b to the power ux + a.
    lemma_power_of_power(b, u * x + a);
    // The device: g^a times g^(xu), to the power b.
    lemma_power_of_power(x, u);
    lemma_product_of_powers(a, x * u);
    lemma_power_of_remainder(ga * vu, b);
    lemma_power_of_power(a + x * u, b);
    assert(b * (u * x + a) == (a + x * u) * b) by (nonlinear_arith);
}

/// Somebody who typed the PIN and a device that showed it hold the same key.
pub proof fn law_device_with_the_pin_has_the_same_key(
    pin: Seq<char>,
    salt: Seq<u8>,
    a: nat,
    b: nat,
)
    ensures
        ({
            let v = pin_verifier(private_number(pin, salt));
            let theirs = device_public(v, b);
            let ours = crypto::power(crypto::generator(), a);
            let u = bytes::be_nat(
                crypto::sha512_digest(
                    bytes::padded(ours, srp::WIDTH as nat) + bytes::padded(
                        theirs,
                        srp::WIDTH as nat,
                    ),
                ),
            );
            srp::agree(pin, salt, theirs, a).key == crypto::sha512_digest(
                bytes::be_bytes(device_secret(v, b, ours, u)),
            )
        }),
{
    let x = private_number(pin, salt);
    let v = pin_verifier(x);
    let theirs = device_public(v, b);
    let ours = crypto::power(crypto::generator(), a);
    let u = bytes::be_nat(
        crypto::sha512_digest(
            bytes::padded(ours, srp::WIDTH as nat) + bytes::padded(theirs, srp::WIDTH as nat),
        ),
    );
    law_both_sides_have_the_same_secret(x, a, b, u);
}

/// Our identity is handed over only to a device that proved that it knows the PIN.
pub proof fn law_identity_only_for_a_proof(
    agreed: Agreement,
    seed: Seq<u8>,
    client_id: Seq<u8>,
    device_proof: Seq<u8>,
    name: Seq<char>,
)
    ensures
        srp::exchanged(agreed, seed, client_id, device_proof, name) is Ok ==> device_proof
            == srp::device_proof_of(agreed),
        device_proof != srp::device_proof_of(agreed) ==> srp::exchanged(
            agreed,
            seed,
            client_id,
            device_proof,
            name,
        ) == Err::<Seq<u8>, Seq<char>>(srp::wrong_proof()),
{
}

/// Only the device that was paired is verified: its reply opens, it goes by the identifier that
/// was kept, and its signature over the exchange is one of the key that was kept.
pub proof fn law_only_the_paired_device_is_verified(
    secret: Seq<u8>,
    public: Seq<u8>,
    pairing: PairingView,
    device_pub: Seq<u8>,
    encrypted: Seq<u8>,
)
    requires
        srp::verified(secret, public, pairing, device_pub, encrypted) is Ok,
    ensures
        ({
            let key = srp::verify_key(crypto::x25519_shared(secret, device_pub));
            let plain = srp::opened(key, srp::utf8("PV-Msg02"@), encrypted);
            let items = tlv8::decoded(plain->0);
            let signature = tlv8::lookup(items, tlv8::SIGNATURE);
            &&& plain is Some
            &&& tlv8::lookup(items, tlv8::IDENTIFIER) == Some(pairing.device_id)
            &&& signature is Some
            &&& crypto::ed25519_verifies(
                pairing.device_ltpk,
                device_pub + pairing.device_id + public,
                signature->0,
            )
        }),
{
}

/// The device that was paired is verified: where its reply opens, goes by the identifier that was
/// kept, and holds its signature over the exchange, we answer it and have both session keys.
pub proof fn law_paired_device_is_verified(
    secret: Seq<u8>,
    public: Seq<u8>,
    pairing: PairingView,
    device_pub: Seq<u8>,
    encrypted: Seq<u8>,
    plain: Seq<u8>,
    signature: Seq<u8>,
)
    requires
        device_pub.len() == 32,
        srp::opened(
            srp::verify_key(crypto::x25519_shared(secret, device_pub)),
            srp::utf8("PV-Msg02"@),
            encrypted,
        ) == Some(plain),
        tlv8::lookup(tlv8::decoded(plain), tlv8::IDENTIFIER) == Some(pairing.device_id),
        tlv8::lookup(tlv8::decoded(plain), tlv8::SIGNATURE) == Some(signature),
        srp::signature_refusal(
            pairing.device_ltpk,
            device_pub + pairing.device_id + public,
            signature,
        ) is None,
        srp::answer(pairing, public, device_pub).len() <= crypto::LONGEST,
    ensures
        ({
            let shared = crypto::x25519_shared(secret, device_pub);
            let data = srp::sealed(
                srp::verify_key(shared),
                srp::utf8("PV-Msg03"@),
                srp::answer(pairing, public, device_pub),
            );
            srp::verified(secret, public, pairing, device_pub, encrypted) == Ok::<
                (Seq<u8>, Seq<u8>, Seq<u8>),
                Seq<char>,
            >(
                (
                    srp::sealed_message(3, data->0),
                    srp::session_key(srp::WRITE_INFO@, shared),
                    srp::session_key(srp::READ_INFO@, shared),
                ),
            )
        }),
{
}

/// A reply under another identifier is refused, whatever else it holds.
pub proof fn law_another_device_is_refused(
    secret: Seq<u8>,
    public: Seq<u8>,
    pairing: PairingView,
    device_pub: Seq<u8>,
    encrypted: Seq<u8>,
    plain: Seq<u8>,
)
    requires
        device_pub.len() == 32,
        srp::opened(
            srp::verify_key(crypto::x25519_shared(secret, device_pub)),
            srp::utf8("PV-Msg02"@),
            encrypted,
        ) == Some(plain),
        tlv8::lookup(tlv8::decoded(plain), tlv8::IDENTIFIER) is Some,
        tlv8::lookup(tlv8::decoded(plain), tlv8::SIGNATURE) is Some,
        tlv8::lookup(tlv8::decoded(plain), tlv8::IDENTIFIER) != Some(pairing.device_id),
    ensures
        srp::verified(secret, public, pairing, device_pub, encrypted) == Err::<
            (Seq<u8>, Seq<u8>, Seq<u8>),
            Seq<char>,
        >("this is a different Apple TV than the one that was paired"@),
{
}

// --------------------------------------------------------------------------------------------
// What is computed
// --------------------------------------------------------------------------------------------

/// Pair Setup goes on exactly where the text has four, six or eight decimal digits and the
/// device's public value is not nothing in the group. A text that is no PIN is complained of
/// first.
pub proof fn law_setup_refusals(pin: Seq<char>, device_pub: Seq<u8>)
    ensures
        ({
            let n = pin.filter(|c: char| '0' <= c && c <= '9').len();
            let refusal = srp::setup_refusal(pin, device_pub);
            &&& !(n == 4 || n == 6 || n == 8) ==> refusal == Some(
                "the PIN on the Apple TV is 4 digits (or 6 or 8 on older ones)"@,
            )
            &&& (n == 4 || n == 6 || n == 8) && bytes::be_nat(device_pub) % crypto::modulus() == 0
                ==> refusal == Some("the Apple TV sent an invalid SRP public key"@)
            &&& (n == 4 || n == 6 || n == 8) && bytes::be_nat(device_pub) % crypto::modulus() != 0
                ==> refusal is None
        }),
{
    srp::law_digits_of_a_text(pin);
}

/// Four decimal digits are a PIN, and are the PIN that is proved: what is agreed on with such a
/// text is what is agreed on with the text itself.
pub proof fn law_four_digits_are_the_pin(
    pin: Seq<char>,
    device_pub: Seq<u8>,
    salt: Seq<u8>,
    a: nat,
)
    requires
        pin.len() == 4,
        forall|i: int| 0 <= i < 4 ==> '0' <= #[trigger] pin[i] && pin[i] <= '9',
        bytes::be_nat(device_pub) % crypto::modulus() != 0,
    ensures
        srp::setup_refusal(pin, device_pub) is None,
        srp::agree(srp::digits(pin), salt, bytes::be_nat(device_pub), a) == srp::agree(
            pin,
            salt,
            bytes::be_nat(device_pub),
            a,
        ),
{
    srp::law_digits_of_a_text(pin);
}

/// What divides the digits of a PIN makes no difference: a text of digits with something else put
/// in between is the same PIN.
pub proof fn law_what_divides_digits_is_dropped(front: Seq<char>, mark: char, back: Seq<char>)
    requires
        !('0' <= mark && mark <= '9'),
    ensures
        srp::digits(front + seq![mark] + back) == srp::digits(front + back),
{
    let d = |c: char| '0' <= c && c <= '9';
    srp::law_digits_of_a_text(front + seq![mark] + back);
    srp::law_digits_of_a_text(front + back);
    Seq::filter_distributes_over_add(front + seq![mark], back, d);
    Seq::filter_distributes_over_add(front, seq![mark], d);
    Seq::filter_distributes_over_add(front, back, d);
    assert(seq![mark].filter(d) =~= Seq::<char>::empty()) by {
        reveal_with_fuel(Seq::<_>::filter, 2);
        assert(seq![mark].drop_last() =~= Seq::<char>::empty());
        assert(seq![mark].last() == mark);
    }
    assert(front.filter(d) + Seq::<char>::empty() =~= front.filter(d));
}

/// Two byte strings of one length differ in the bits in which each byte of the one differs from
/// the byte at its place in the other.
pub proof fn law_xor(a: Seq<u8>, b: Seq<u8>)
    ensures
        a.len() <= b.len() ==> srp::xor(a, b).len() == a.len(),
        b.len() <= a.len() ==> srp::xor(a, b).len() == b.len(),
        forall|i: int| 0 <= i < a.len() && i < b.len() ==> srp::xor(a, b)[i] == a[i] ^ b[i],
{
}

/// What we compute of the exchange. Our public value spells the generator to the power of our
/// secret in at least 384 bytes. The key is the hash of the premaster secret, in which the two
/// public values scramble each other, ours in front. Our proof is the hash of the modulus' hash
/// against the generator's, the hash of the name, the salt, our public value, the device's in 384
/// bytes, and the key.
pub proof fn law_what_is_agreed(pin: Seq<char>, salt: Seq<u8>, b: nat, a: nat)
    ensures
        ({
            let agreed = srp::agree(pin, salt, b, a);
            let theirs = bytes::padded(b, 384);
            let h_n = crypto::sha512_digest(bytes::be_bytes(crypto::modulus()));
            let h_g = crypto::sha512_digest(seq![5u8]);
            let x = bytes::be_nat(
                crypto::sha512_digest(
                    salt + crypto::sha512_digest(
                        encode_utf8("Pair-Setup"@) + seq![58u8] + encode_utf8(pin),
                    ),
                ),
            );
            let u = bytes::be_nat(crypto::sha512_digest(agreed.public + theirs));
            &&& bytes::be_nat(agreed.public) == crypto::power(5, a)
            &&& agreed.public.len() >= 384
            &&& agreed.key == crypto::sha512_digest(
                bytes::be_bytes(crypto::premaster(b, crypto::multiplier(), x, a, u)),
            )
            &&& exists|mixed: Seq<u8>|
                {
                    &&& mixed.len() == (if h_n.len() < h_g.len() {
                        h_n.len()
                    } else {
                        h_g.len()
                    })
                    &&& forall|i: int| 0 <= i < mixed.len() ==> mixed[i] == h_n[i] ^ h_g[i]
                    &&& agreed.proven == #[trigger] crypto::sha512_digest(
                        mixed + crypto::sha512_digest(encode_utf8("Pair-Setup"@)) + salt
                            + agreed.public + theirs + agreed.key,
                    )
                }
        }),
{
    bytes::law_padding_keeps_the_number(crypto::power(crypto::generator(), a), 384);
    assert(bytes::be_bytes(5) =~= seq![5u8]);
    let h_n = crypto::sha512_digest(bytes::be_bytes(crypto::modulus()));
    let h_g = crypto::sha512_digest(seq![5u8]);
    let mixed = srp::xor(h_n, h_g);
    law_xor(h_n, h_g);
    let agreed = srp::agree(pin, salt, b, a);
    assert(agreed.proven == crypto::sha512_digest(
        mixed + crypto::sha512_digest(encode_utf8("Pair-Setup"@)) + salt + agreed.public
            + bytes::padded(b, 384) + agreed.key,
    ));
}

/// The device's proof is the hash of our public value, our proof and the key, one after another.
pub proof fn law_device_proof(agreed: Agreement)
    ensures
        srp::device_proof_of(agreed) == crypto::sha512_digest(
            agreed.public + agreed.proven + agreed.key,
        ),
        srp::WIDTH == 384,
{
}

/// A pairing message is sealed under its key and a nonce that ends in its label, with no additional
/// data, where it has no more than 274877906816 bytes, and opened under the same, where it has no
/// more than sixteen above that.
pub proof fn law_pairing_seals(key: Seq<u8>, label: Seq<u8>, message: Seq<u8>)
    requires
        label.len() == 8,
    ensures
        exists|nonce: Seq<u8>|
            {
                &&& nonce.len() == 12
                &&& forall|i: int| 0 <= i < 4 ==> nonce[i] == 0
                &&& #[trigger] nonce.skip(4) == label
                &&& message.len() <= 274_877_906_816 ==> srp::sealed(key, label, message) == Some(
                    crypto::chacha_sealed(key, nonce, Seq::<u8>::empty(), message),
                )
                &&& message.len() <= 274_877_906_832 ==> srp::opened(key, label, message)
                    == crypto::chacha_opened(key, nonce, Seq::<u8>::empty(), message)
            },
        message.len() > 274_877_906_816 ==> srp::sealed(key, label, message) is None,
        message.len() > 274_877_906_832 ==> srp::opened(key, label, message) is None,
{
    srp::law_label_spelled(label);
    let nonce = srp::label_nonce(label);
    assert(nonce.skip(4) == label);
}

/// Two types, one value each.
proof fn lemma_two(a: u8, x: Seq<u8>, b: u8, y: Seq<u8>)
    requires
        a != b,
    ensures
        ({
            let items = tlv8::decoded(tlv8::encoded(seq![(a, x), (b, y)]));
            &&& tlv8::lookup(items, a) == Some(x)
            &&& tlv8::lookup(items, b) == Some(y)
            &&& items.len() == 2
        }),
{
    let items = seq![(a, x), (b, y)];
    tlv8::law_separate_entries_round_trip(items);
    assert(items.skip(1)[0] == (b, y));
    assert(tlv8::lookup(items, b) == tlv8::lookup(items.skip(1), b));
}

/// Three types, one value each.
proof fn lemma_three(a: u8, x: Seq<u8>, b: u8, y: Seq<u8>, c: u8, z: Seq<u8>)
    requires
        a != b,
        b != c,
        a != c,
    ensures
        ({
            let items = tlv8::decoded(tlv8::encoded(seq![(a, x), (b, y), (c, z)]));
            &&& tlv8::lookup(items, a) == Some(x)
            &&& tlv8::lookup(items, b) == Some(y)
            &&& tlv8::lookup(items, c) == Some(z)
            &&& items.len() == 3
        }),
{
    let items = seq![(a, x), (b, y), (c, z)];
    tlv8::law_separate_entries_round_trip(items);
    let one = items.skip(1);
    let two = one.skip(1);
    assert(one[0] == (b, y));
    assert(two[0] == (c, z));
    assert(tlv8::lookup(items, b) == tlv8::lookup(one, b));
    assert(tlv8::lookup(items, c) == tlv8::lookup(one, c));
    assert(tlv8::lookup(one, c) == tlv8::lookup(two, c));
}

/// What each message says to its reader, by the types on the wire: 0 is the method, 6 the step, 3 a
/// public key, 4 a proof and 5 sealed data.
pub proof fn law_messages_say(public: Seq<u8>, proven: Seq<u8>, state: u8, data: Seq<u8>)
    ensures
        ({
            let items = tlv8::decoded(srp::start_message());
            &&& items.len() == 2
            &&& tlv8::lookup(items, 0) == Some(seq![0u8])
            &&& tlv8::lookup(items, 6) == Some(seq![1u8])
        }),
        ({
            let items = tlv8::decoded(srp::prove_message(public, proven));
            &&& items.len() == 3
            &&& tlv8::lookup(items, 6) == Some(seq![3u8])
            &&& tlv8::lookup(items, 3) == Some(public)
            &&& tlv8::lookup(items, 4) == Some(proven)
        }),
        ({
            let items = tlv8::decoded(srp::sealed_message(state, data));
            &&& items.len() == 2
            &&& tlv8::lookup(items, 6) == Some(seq![state])
            &&& tlv8::lookup(items, 5) == Some(data)
        }),
        ({
            let items = tlv8::decoded(srp::offer(public));
            &&& items.len() == 2
            &&& tlv8::lookup(items, 6) == Some(seq![1u8])
            &&& tlv8::lookup(items, 3) == Some(public)
        }),
{
    lemma_two(0, seq![0u8], 6, seq![1u8]);
    lemma_three(6, seq![3u8], 3, public, 4, proven);
    lemma_two(6, seq![state], 5, data);
    lemma_two(6, seq![1u8], 3, public);
}

/// What the sealed part of `M5` says to its reader: our identifier (1), our public key (3), our
/// signature (10) over what a key of its own, the identifier and the public key come to, and our
/// name (17) as an OPACK dictionary.
pub proof fn law_identity_says(
    key: Seq<u8>,
    seed: Seq<u8>,
    client_id: Seq<u8>,
    name: Seq<char>,
)
    ensures
        ({
            let items = tlv8::decoded(srp::our_identity(key, seed, client_id, name));
            let ltpk = crypto::ed25519_public(seed);
            let derived = crypto::hkdf_expanded(
                encode_utf8("Pair-Setup-Controller-Sign-Salt"@),
                encode_utf8("Pair-Setup-Controller-Sign-Info"@),
                key,
            );
            &&& items.len() == 4
            &&& tlv8::lookup(items, 1) == Some(client_id)
            &&& tlv8::lookup(items, 3) == Some(ltpk)
            &&& tlv8::lookup(items, 10) == Some(
                crypto::ed25519_signature(seed, derived + client_id + ltpk),
            )
            &&& tlv8::lookup(items, 17) == Some(
                model::wire_of(Node::Dict(seq![("name"@, Node::Str(name))])),
            )
        }),
{
    reveal(model::wire_of);
    let ltpk = crypto::ed25519_public(seed);
    let signature = crypto::ed25519_signature(seed, srp::identity_signed(key, client_id, ltpk));
    let blob = model::packed(Node::Dict(seq![("name"@, Node::Str(name))]));
    let items = seq![(1u8, client_id), (3u8, ltpk), (10u8, signature), (17u8, blob)];
    tlv8::law_separate_entries_round_trip(items);
    let one = items.skip(1);
    let two = one.skip(1);
    let three = two.skip(1);
    assert(one[0] == (3u8, ltpk));
    assert(two[0] == (10u8, signature));
    assert(three[0] == (17u8, blob));
    assert(tlv8::lookup(items, 3) == tlv8::lookup(one, 3));
    assert(tlv8::lookup(items, 10) == tlv8::lookup(one, 10));
    assert(tlv8::lookup(one, 10) == tlv8::lookup(two, 10));
    assert(tlv8::lookup(items, 17) == tlv8::lookup(one, 17));
    assert(tlv8::lookup(one, 17) == tlv8::lookup(two, 17));
    assert(tlv8::lookup(two, 17) == tlv8::lookup(three, 17));
}

/// `M5` goes out exactly where the device's proof is the hash of our public value, our proof and
/// the key, and our identity can be sealed. It is the fifth step, and its sealed part is our
/// identity under the key of the exchange and the label `PS-Msg05`.
pub proof fn law_exchange_goes_on(
    agreed: Agreement,
    seed: Seq<u8>,
    client_id: Seq<u8>,
    device_proof: Seq<u8>,
    name: Seq<char>,
)
    ensures
        ({
            let r = srp::exchanged(agreed, seed, client_id, device_proof, name);
            let right = device_proof == crypto::sha512_digest(
                agreed.public + agreed.proven + agreed.key,
            );
            let data = srp::sealed(
                crypto::hkdf_expanded(
                    encode_utf8("Pair-Setup-Encrypt-Salt"@),
                    encode_utf8("Pair-Setup-Encrypt-Info"@),
                    agreed.key,
                ),
                encode_utf8("PS-Msg05"@),
                srp::our_identity(agreed.key, seed, client_id, name),
            );
            &&& !right ==> r == Err::<Seq<u8>, Seq<char>>(
                "the Apple TV's proof did not match — wrong PIN"@,
            )
            &&& right && data is Some ==> r == Ok::<Seq<u8>, Seq<char>>(
                srp::sealed_message(5, data->0),
            )
            &&& right && data is None ==> r == Err::<Seq<u8>, Seq<char>>(
                "could not encrypt the pairing message"@,
            )
        }),
{
}

/// The pairing keeps the identifier (1) and the public key (3) that the device sent, in that order
/// of asking, and our own identifier and seed.
pub proof fn law_what_a_pairing_keeps(plain: Seq<u8>, client_id: Seq<u8>, seed: Seq<u8>)
    ensures
        ({
            let items = tlv8::decoded(plain);
            let id = tlv8::lookup(items, 1);
            let key = tlv8::lookup(items, 3);
            let r = srp::finished(plain, client_id, seed);
            &&& id is None ==> r == Err::<PairingView, Seq<char>>(
                "the Apple TV sent no identifier"@,
            )
            &&& id is Some && key is None ==> r == Err::<PairingView, Seq<char>>(
                "the Apple TV sent no public key"@,
            )
            &&& id is Some && key is Some ==> {
                &&& r is Ok
                &&& r->Ok_0.device_id == id->0
                &&& r->Ok_0.device_ltpk == key->0
                &&& r->Ok_0.client_id == client_id
                &&& r->Ok_0.client_sk == seed
            }
        }),
{
}

/// What we seal into `M3` says our identifier (1) and our signature (10) over our public key, that
/// identifier and the device's public key.
pub proof fn law_answer_says(pairing: PairingView, public: Seq<u8>, device_pub: Seq<u8>)
    ensures
        ({
            let items = tlv8::decoded(srp::answer(pairing, public, device_pub));
            &&& items.len() == 2
            &&& tlv8::lookup(items, 1) == Some(pairing.client_id)
            &&& tlv8::lookup(items, 10) == Some(
                crypto::ed25519_signature(
                    pairing.client_sk,
                    public + pairing.client_id + device_pub,
                ),
            )
        }),
{
    lemma_two(
        1,
        pairing.client_id,
        10,
        crypto::ed25519_signature(pairing.client_sk, public + pairing.client_id + device_pub),
    );
}

/// The signature in a reply: it counts only where the reply goes by the identifier (1) that was
/// kept and holds a signature (10).
pub proof fn law_reply_is_read(plain: Seq<u8>, device_id: Seq<u8>)
    ensures
        ({
            let items = tlv8::decoded(plain);
            let id = tlv8::lookup(items, 1);
            let signature = tlv8::lookup(items, 10);
            let r = srp::reply_signature(plain, device_id);
            &&& id is None ==> r == Err::<Seq<u8>, Seq<char>>("no identifier in the reply"@)
            &&& id is Some && signature is None ==> r == Err::<Seq<u8>, Seq<char>>(
                "no signature in the reply"@,
            )
            &&& id is Some && signature is Some && id->0 != device_id ==> r == Err::<
                Seq<u8>,
                Seq<char>,
            >("this is a different Apple TV than the one that was paired"@)
            &&& id == Some(device_id) && signature is Some ==> r == Ok::<Seq<u8>, Seq<char>>(
                signature->0,
            )
        }),
{
}

/// A signature counts exactly where the key that was kept has thirty-two bytes and is one, the
/// signature has sixty-four, and it is one of the message under the key. What is wrong is said, the
/// key's length first, then the signature's, then the key, then the signature.
pub proof fn law_signature_refusals(ltpk: Seq<u8>, message: Seq<u8>, signature: Seq<u8>)
    ensures
        ({
            let r = srp::signature_refusal(ltpk, message, signature);
            &&& r is None <==> ltpk.len() == 32 && signature.len() == 64 && crypto::ed25519_is_key(
                ltpk,
            ) && crypto::ed25519_verifies(ltpk, message, signature)
            &&& ltpk.len() != 32 ==> r == Some("the stored key for this Apple TV is malformed"@)
            &&& ltpk.len() == 32 && signature.len() != 64 ==> r == Some(
                "the Apple TV sent a malformed signature"@,
            )
            &&& ltpk.len() == 32 && signature.len() == 64 && !crypto::ed25519_is_key(ltpk) ==> r
                == Some("the stored key for this Apple TV is not a valid key"@)
            &&& ltpk.len() == 32 && signature.len() == 64 && crypto::ed25519_is_key(ltpk)
                && !crypto::ed25519_verifies(ltpk, message, signature) ==> r == Some(
                "the Apple TV's signature did not check out — it may have been reset"@,
            )
        }),
{
}

/// Pair Verify succeeds exactly where the device's key has thirty-two bytes, its reply opens under
/// the key of the verification and the label `PV-Msg02`, goes by the identifier that was kept, and
/// holds the kept key's signature over the device's public key, that identifier and ours, and our
/// answer can be sealed. Our answer is the third step, sealed under the label `PV-Msg03`. We write
/// with the key that is named after the client, and read with the one named after the server, each
/// derived from the shared secret without a salt.
pub proof fn law_verification(
    secret: Seq<u8>,
    public: Seq<u8>,
    pairing: PairingView,
    device_pub: Seq<u8>,
    encrypted: Seq<u8>,
)
    ensures
        ({
            let r = srp::verified(secret, public, pairing, device_pub, encrypted);
            let shared = crypto::x25519_shared(secret, device_pub);
            let key = crypto::hkdf_expanded(
                encode_utf8("Pair-Verify-Encrypt-Salt"@),
                encode_utf8("Pair-Verify-Encrypt-Info"@),
                shared,
            );
            let plain = srp::opened(key, encode_utf8("PV-Msg02"@), encrypted);
            let items = tlv8::decoded(plain->0);
            let signature = tlv8::lookup(items, 10);
            let data = srp::sealed(
                key,
                encode_utf8("PV-Msg03"@),
                srp::answer(pairing, public, device_pub),
            );
            let genuine = {
                &&& device_pub.len() == 32
                &&& plain is Some
                &&& tlv8::lookup(items, 1) == Some(pairing.device_id)
                &&& signature is Some
                &&& signature->0.len() == 64
                &&& pairing.device_ltpk.len() == 32
                &&& crypto::ed25519_is_key(pairing.device_ltpk)
                &&& crypto::ed25519_verifies(
                    pairing.device_ltpk,
                    device_pub + pairing.device_id + public,
                    signature->0,
                )
            };
            &&& r is Ok <==> genuine && data is Some
            &&& r is Ok ==> {
                &&& r->Ok_0.0 == srp::sealed_message(3, data->0)
                &&& r->Ok_0.1 == crypto::hkdf_expanded(
                    encode_utf8(""@),
                    encode_utf8("ClientEncrypt-main"@),
                    shared,
                )
                &&& r->Ok_0.2 == crypto::hkdf_expanded(
                    encode_utf8(""@),
                    encode_utf8("ServerEncrypt-main"@),
                    shared,
                )
            }
            &&& device_pub.len() != 32 ==> r == Err::<(Seq<u8>, Seq<u8>, Seq<u8>), Seq<char>>(
                "the Apple TV sent a malformed public key"@,
            )
            &&& device_pub.len() == 32 && plain is None ==> r == Err::<
                (Seq<u8>, Seq<u8>, Seq<u8>),
                Seq<char>,
            >("could not decrypt the Apple TV's reply — wrong key or wrong PIN"@)
        }),
{
}

/// Where Pair Verify fails past the device's key and the opening of its reply, what is said is what
/// is wrong with the reply, and else what is wrong with its signature.
pub proof fn law_verification_says_why(
    secret: Seq<u8>,
    public: Seq<u8>,
    pairing: PairingView,
    device_pub: Seq<u8>,
    encrypted: Seq<u8>,
    plain: Seq<u8>,
)
    requires
        device_pub.len() == 32,
        srp::opened(
            crypto::hkdf_expanded(
                encode_utf8("Pair-Verify-Encrypt-Salt"@),
                encode_utf8("Pair-Verify-Encrypt-Info"@),
                crypto::x25519_shared(secret, device_pub),
            ),
            encode_utf8("PV-Msg02"@),
            encrypted,
        ) == Some(plain),
    ensures
        ({
            let r = srp::verified(secret, public, pairing, device_pub, encrypted);
            let reply = srp::reply_signature(plain, pairing.device_id);
            let refusal = srp::signature_refusal(
                pairing.device_ltpk,
                device_pub + pairing.device_id + public,
                reply->Ok_0,
            );
            &&& reply is Err ==> r == Err::<(Seq<u8>, Seq<u8>, Seq<u8>), Seq<char>>(reply->Err_0)
            &&& reply is Ok && refusal is Some ==> r == Err::<
                (Seq<u8>, Seq<u8>, Seq<u8>),
                Seq<char>,
            >(refusal->0)
            &&& reply is Ok && refusal is None && r is Err ==> r->Err_0
                == "could not encrypt the pairing message"@
        }),
{
}

/// A session frame is sealed and opened under its key, a nonce that spells the counter, and the
/// header as additional data, up to the length that can be.
pub proof fn law_session_seals(key: Seq<u8>, counter: u64, header: Seq<u8>, message: Seq<u8>)
    ensures
        message.len() <= 274_877_906_816 ==> srp::session_sealed(key, counter, header, message)
            == Some(
            crypto::chacha_sealed(key, srp::counter_nonce(counter), header, message),
        ),
        message.len() > 274_877_906_816 ==> srp::session_sealed(
            key,
            counter,
            header,
            message,
        ) is None,
        message.len() <= 274_877_906_832 ==> srp::session_opened(key, counter, header, message)
            == crypto::chacha_opened(key, srp::counter_nonce(counter), header, message),
        message.len() > 274_877_906_832 ==> srp::session_opened(
            key,
            counter,
            header,
            message,
        ) is None,
{
}

/// What a message that opens again is, and what a signature that checks out is.
pub proof fn law_what_opens_and_checks_out(
    key: Seq<u8>,
    label: Seq<u8>,
    plain: Seq<u8>,
    seed: Seq<u8>,
)
    ensures
        srp::opens_again(key, label, plain) <==> srp::sealed(key, label, plain) is Some
            && srp::opened(key, label, srp::sealed(key, label, plain)->0) == Some(plain),
        srp::signs(seed, plain) <==> crypto::ed25519_verifies(
            crypto::ed25519_public(seed),
            plain,
            crypto::ed25519_signature(seed, plain),
        ),
{
}

/// The arithmetic of the group: a power is the remainder of the power, the multiplier is the hash
/// of the modulus and of the generator, 5, at its width, and the client's secret is what is left of
/// the device's public value without the masked verifier, to the power of our two exponents.
pub proof fn law_group_arithmetic(base: nat, e: nat, b: nat, k: nat, x: nat, a: nat, u: nat)
    ensures
        crypto::power(base, e) == pow(base as int, e) % (crypto::modulus() as int),
        crypto::generator() == 5,
        crypto::multiplier() == bytes::be_nat(
            crypto::sha512_digest(
                bytes::be_bytes(crypto::modulus()) + bytes::padded(
                    5,
                    bytes::be_bytes(crypto::modulus()).len(),
                ),
            ),
        ),
        ({
            let n = crypto::modulus() as int;
            crypto::premaster(b, k, x, a, u) == crypto::power(
                ((b - k * crypto::power(5, x)) % n) as nat,
                u * x + a,
            )
        }),
{
    let n = crypto::modulus() as int;
    reveal(crypto::modulus);
    lemma_mod_bound(pow(base as int, e), n);
    let masked = (k * crypto::power(5, x)) as int;
    lemma_mod_bound(masked, n);
    lemma_sub_mod_noop(b as int, masked, n);
    lemma_mod_add_multiples_vanish(b - masked % n, n);
    lemma_sub_mod_noop_right(b as int, masked, n);
}

} // verus!
