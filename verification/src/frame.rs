//! Companion framing: one byte of type, three of big-endian length, then the payload.
//!
//! Once the session is up the payload is sealed with ChaCha20-Poly1305, and the header is the
//! additional data. The declared length then counts the ciphertext with its 16-byte tag.
//!
//! Bytes arrive as they come and not by the message, so a [`Framer`] holds what is left over.

use crate::bytes;
use crate::crypto;
use crate::srp;
use vstd::prelude::*;

verus! {

pub const PS_START: u8 = 0x03;

pub const PS_NEXT: u8 = 0x04;

pub const PV_START: u8 = 0x05;

pub const PV_NEXT: u8 = 0x06;

pub const E_OPACK: u8 = 0x08;

/// How many bytes come before the payload.
pub const HEADER: usize = 4;

/// The largest length that three bytes can say.
pub const MAX_LENGTH: usize = 0xFF_FFFF;

/// The bytes in front of a body of `len` bytes.
pub open spec fn header(kind: u8, len: nat) -> Seq<u8> {
    seq![kind, (len / 0x1_0000) as u8, (len / 0x100 % 0x100) as u8, (len % 0x100) as u8]
}

/// The length that a header declares.
pub open spec fn declared(h: Seq<u8>) -> nat {
    (0x1_0000 * h[1] + 0x100 * h[2] + h[3]) as nat
}

/// How many bytes a payload takes after the header. An empty one has no tag.
pub open spec fn body_len(payload: Seq<u8>, key: Option<Seq<u8>>) -> nat {
    if key is Some && payload.len() > 0 {
        payload.len() + crypto::TAG as nat
    } else {
        payload.len()
    }
}

/// A payload in a frame, or none where its length cannot be declared.
pub open spec fn framed(kind: u8, payload: Seq<u8>, key: Option<Seq<u8>>, counter: u64) -> Option<
    Seq<u8>,
> {
    let len = body_len(payload, key);
    if len > MAX_LENGTH {
        None
    } else if key is Some && payload.len() > 0 {
        Some(
            header(kind, len) + crypto::chacha_sealed(
                key->0,
                srp::counter_nonce(counter),
                header(kind, len),
                payload,
            ),
        )
    } else {
        Some(header(kind, len) + payload)
    }
}

/// Whether a whole frame stands at the front of `buffer`.
pub open spec fn complete(buffer: Seq<u8>) -> bool {
    buffer.len() >= HEADER && buffer.len() >= HEADER + declared(buffer)
}

/// What the frame at the front of `buffer` holds, or the complaint that it does not open.
pub open spec fn read(buffer: Seq<u8>, key: Option<Seq<u8>>, counter: u64) -> Result<
    (u8, Seq<u8>),
    Seq<char>,
> {
    let body = buffer.subrange(HEADER as int, HEADER + declared(buffer));
    if key is Some && body.len() > 0 {
        match srp::session_opened(key->0, counter, buffer.take(HEADER as int), body) {
            Some(payload) => Ok((buffer[0], payload)),
            None => Err(srp::out_of_step()),
        }
    } else {
        Ok((buffer[0], body))
    }
}

/// What follows the frame at the front of `buffer`.
pub open spec fn left(buffer: Seq<u8>) -> Seq<u8> {
    buffer.skip(HEADER + declared(buffer))
}

/// A key as a mathematical object.
pub open spec fn key_of(key: Option<&[u8; 32]>) -> Option<Seq<u8>> {
    match key {
        Some(k) => Some(k@),
        None => None,
    }
}

/// A key is its thirty-two bytes.
pub proof fn law_key_of(key: Option<&[u8; 32]>)
    ensures
        key is Some ==> key_of(key) == Some(key->0@),
        key is None ==> key_of(key) is None,
{
}

/// A declared length is read back.
pub proof fn law_declared_length(kind: u8, len: nat, body: Seq<u8>)
    requires
        len <= MAX_LENGTH,
    ensures
        declared(header(kind, len) + body) == len,
        (header(kind, len) + body).take(HEADER as int) == header(kind, len),
{
    assert((header(kind, len) + body).take(HEADER as int) =~= header(kind, len));
}

/// The second, third and fourth byte of a header spell the length as a big-endian number.
proof fn lemma_length_field(h: Seq<u8>)
    requires
        h.len() >= 4,
    ensures
        bytes::be_nat(h.subrange(1, 4)) == 0x1_0000 * h[1] + 0x100 * h[2] + h[3],
{
    let f = h.subrange(1, 4);
    let empty = Seq::<u8>::empty();
    reveal_with_fuel(bytes::be_nat, 4);
    assert(f.drop_last() =~= seq![h[1], h[2]]);
    assert(seq![h[1], h[2]].drop_last() =~= seq![h[1]]);
    assert(seq![h[1]].drop_last() =~= empty);
    assert(bytes::be_nat(seq![h[1]]) == h[1]);
    assert(bytes::be_nat(seq![h[1], h[2]]) == 256 * h[1] + h[2]);
}

/// A frame is one byte of type, three bytes that spell how long the body is as a big-endian
/// number, and the body. The body is the payload as it is, or, under a key and where there is a
/// payload, the payload sealed: under that key, a nonce that spells the counter behind four zeros
/// with its low byte first, and the four bytes of the header. It is then 16 bytes longer. A
/// payload is refused exactly where its body would be longer than three bytes can say.
pub proof fn law_frame_layout(kind: u8, payload: Seq<u8>, key: Option<Seq<u8>>, counter: u64)
    ensures
        match framed(kind, payload, key, counter) {
            Some(wire) => {
                &&& wire.len() >= 4
                &&& wire[0] == kind
                &&& key is None || payload.len() == 0 ==> {
                    &&& wire.skip(4) == payload
                    &&& bytes::be_nat(wire.subrange(1, 4)) == wire.len() - 4
                }
                &&& key is Some && payload.len() > 0 ==> {
                    &&& bytes::be_nat(wire.subrange(1, 4)) == payload.len() + 16
                    &&& exists|nonce: Seq<u8>|
                        {
                            &&& nonce.len() == 12
                            &&& forall|i: int| 0 <= i < 4 ==> nonce[i] == 0
                            &&& bytes::le_nat(nonce.skip(4)) == counter
                            &&& wire.skip(4) == #[trigger] crypto::chacha_sealed(
                                key->0,
                                nonce,
                                wire.take(4),
                                payload,
                            )
                        }
                }
            },
            None => payload.len() + (if key is Some && payload.len() > 0 {
                16int
            } else {
                0
            }) > 0xFF_FFFF,
        },
        framed(kind, payload, key, counter) is Some <==> payload.len() + (if key is Some
            && payload.len() > 0 {
            16int
        } else {
            0
        }) <= 0xFF_FFFF,
{
    let len = body_len(payload, key);
    if len <= MAX_LENGTH {
        let wire = framed(kind, payload, key, counter)->0;
        lemma_length_field(wire);
        if key is Some && payload.len() > 0 {
            let nonce = srp::counter_nonce(counter);
            srp::law_counter_spelled(counter);
            assert(wire.take(4) =~= header(kind, len));
            assert(wire.skip(4) =~= crypto::chacha_sealed(key->0, nonce, wire.take(4), payload));
        } else {
            assert(wire.skip(4) =~= payload);
        }
    }
}

/// A buffer holds a whole frame exactly where it has the four bytes of a header and then as many
/// as the last three of them say, read as a big-endian number. The frame's type is the first
/// byte, its body is those bytes, and what is behind them is left. Without a key, or where the
/// body is empty, the payload is the body; else it is the body opened under the key, a nonce that
/// spells the counter, and the header, if it opens.
pub proof fn law_reading_layout(buffer: Seq<u8>, key: Option<Seq<u8>>, counter: u64)
    ensures
        complete(buffer) <==> buffer.len() >= 4 && buffer.len() >= 4 + bytes::be_nat(
            buffer.subrange(1, 4),
        ),
        complete(buffer) ==> {
            let n = bytes::be_nat(buffer.subrange(1, 4)) as int;
            let body = buffer.subrange(4, 4 + n);
            &&& left(buffer) == buffer.skip(4 + n)
            &&& key is None || n == 0 ==> read(buffer, key, counter) == Ok::<
                (u8, Seq<u8>),
                Seq<char>,
            >((buffer[0], body))
            &&& key is Some && n > 0 ==> exists|nonce: Seq<u8>|
                {
                    &&& nonce.len() == 12
                    &&& forall|i: int| 0 <= i < 4 ==> nonce[i] == 0
                    &&& bytes::le_nat(nonce.skip(4)) == counter
                    &&& match #[trigger] crypto::chacha_opened(
                        key->0,
                        nonce,
                        buffer.take(4),
                        body,
                    ) {
                        Some(payload) => read(buffer, key, counter) == Ok::<
                            (u8, Seq<u8>),
                            Seq<char>,
                        >((buffer[0], payload)),
                        None => read(buffer, key, counter) == Err::<(u8, Seq<u8>), Seq<char>>(
                            "could not decrypt a frame — the session is out of step"@,
                        ),
                    }
                }
        },
{
    if buffer.len() >= 4 {
        lemma_length_field(buffer);
        if complete(buffer) && key is Some && declared(buffer) > 0 {
            let nonce = srp::counter_nonce(counter);
            srp::law_counter_spelled(counter);
            let body = buffer.subrange(4, 4 + declared(buffer) as int);
            let opened = crypto::chacha_opened(key->0, nonce, buffer.take(4), body);
            assert(srp::session_opened(key->0, counter, buffer.take(4), body) == opened);
        }
    }
}

/// The types of frame: pairing begins with 3 and goes on with 4, a verification begins with 5 and
/// goes on with 6, and what the session carries has 8.
pub proof fn law_frame_types()
    ensures
        PS_START == 3,
        PS_NEXT == 4,
        PV_START == 5,
        PV_NEXT == 6,
        E_OPACK == 8,
{
}

/// A frame of which a part is missing is no frame yet.
pub proof fn law_part_of_a_frame_is_none(kind: u8, body: Seq<u8>)
    requires
        body.len() <= MAX_LENGTH,
    ensures
        forall|n: int|
            0 <= n < HEADER + body.len() ==> !complete(
                #[trigger] (header(kind, body.len()) + body).take(n),
            ),
{
    let whole = header(kind, body.len()) + body;
    assert forall|n: int| 0 <= n < HEADER + body.len() implies !complete(
        #[trigger] whole.take(n),
    ) by {
        law_declared_length(kind, body.len(), body);
        if n >= HEADER {
            assert(declared(whole.take(n)) == declared(whole));
        }
    }
}

/// Two frames in one read come out one after the other, each with its own payload. Where a key is
/// in use, [`encode`] says the same of the frames it makes.
pub proof fn law_frames_follow_one_another(
    first: u8,
    one: Seq<u8>,
    second: u8,
    two: Seq<u8>,
    tail: Seq<u8>,
)
    requires
        one.len() <= MAX_LENGTH,
        two.len() <= MAX_LENGTH,
    ensures
        ({
            let wire = framed(first, one, None, 0)->0 + framed(second, two, None, 0)->0 + tail;
            &&& complete(wire)
            &&& read(wire, None, 0) == Ok::<(u8, Seq<u8>), Seq<char>>((first, one))
            &&& complete(left(wire))
            &&& read(left(wire), None, 0) == Ok::<(u8, Seq<u8>), Seq<char>>((second, two))
            &&& left(left(wire)) == tail
        }),
{
    let b = header(second, two.len()) + two;
    let wire = header(first, one.len()) + one + b + tail;
    law_declared_length(first, one.len(), one + b + tail);
    assert(wire =~= header(first, one.len()) + (one + b + tail));
    assert(wire.subrange(HEADER as int, HEADER + one.len()) =~= one);
    assert(left(wire) =~= b + tail);
    law_declared_length(second, two.len(), two + tail);
    assert(b + tail =~= header(second, two.len()) + (two + tail));
    assert((b + tail).subrange(HEADER as int, HEADER + two.len()) =~= two);
    assert(left(b + tail) =~= tail);
}

/// Wrap a payload for the wire, and encrypt it if the session is up. Whatever follows it on the
/// wire, the frame is read back as the payload, and what follows is left. While a part of it is
/// missing, there is no frame to read.
pub fn encode(kind: u8, payload: &[u8], key: Option<&[u8; 32]>, counter: u64) -> (r: Result<
    Vec<u8>,
    String,
>)
    ensures
        match r {
            Ok(wire) => {
                &&& framed(kind, payload@, key_of(key), counter) == Some(wire@)
                &&& wire@.len() == HEADER + body_len(payload@, key_of(key))
                &&& wire@[0] == kind
                &&& bytes::be_nat(wire@.subrange(1, 4)) == wire@.len() - 4
                &&& forall|tail: Seq<u8>|
                    {
                        &&& complete(#[trigger] (wire@ + tail))
                        &&& read(wire@ + tail, key_of(key), counter) == Ok::<
                            (u8, Seq<u8>),
                            Seq<char>,
                        >((kind, payload@))
                        &&& left(wire@ + tail) == tail
                    }
                &&& forall|n: int| 0 <= n < wire@.len() ==> !complete(#[trigger] wire@.take(n))
            },
            Err(e) => framed(kind, payload@, key_of(key), counter) is None && e@
                == "frame too large for a 24-bit length"@,
        },
{
    if payload.len() > MAX_LENGTH {
        return Err("frame too large for a 24-bit length".to_string());
    }
    let secret = key.is_some() && payload.len() > 0;
    let len: usize = if secret {
        payload.len() + crypto::TAG
    } else {
        payload.len()
    };
    if len > MAX_LENGTH {
        return Err("frame too large for a 24-bit length".to_string());
    }
    let mut out: Vec<u8> = Vec::new();
    out.push(kind);
    out.push((len / 0x1_0000) as u8);
    out.push((len / 0x100 % 0x100) as u8);
    out.push((len % 0x100) as u8);
    let ghost head = header(kind, len as nat);
    assert(out@ =~= head);
    let body = match key {
        Some(k) if payload.len() > 0 => {
            match srp::session_seal(k, counter, out.as_slice(), payload) {
                Ok(body) => body,
                Err(e) => {
                    return Err(e);
                },
            }
        },
        _ => bytes::copy(payload),
    };
    bytes::append(&mut out, body.as_slice());
    proof {
        assert forall|tail: Seq<u8>|
            {
                &&& complete(#[trigger] (out@ + tail))
                &&& read(out@ + tail, key_of(key), counter) == Ok::<(u8, Seq<u8>), Seq<char>>(
                    (kind, payload@),
                )
                &&& left(out@ + tail) == tail
            } by {
            let buffer = out@ + tail;
            assert(buffer =~= head + (body@ + tail));
            law_declared_length(kind, len as nat, body@ + tail);
            assert(buffer.subrange(HEADER as int, HEADER + len) =~= body@);
            assert(left(buffer) =~= tail);
        }
        assert(out@ =~= head + body@);
        lemma_length_field(out@);
        law_part_of_a_frame_is_none(kind, body@);
    }
    Ok(out)
}

/// What is made of the body of a frame of type `kind` once its opening has been tried.
pub fn settle(kind: u8, opened: Result<Vec<u8>, String>) -> (r: Result<(u8, Vec<u8>), String>)
    ensures
        match (r, opened) {
            (Ok((k, payload)), Ok(plain)) => k == kind && payload@ == plain@,
            (Err(e), Err(why)) => e@ == why@,
            _ => false,
        },
{
    match opened {
        Ok(payload) => Ok((kind, payload)),
        Err(e) => Err(e),
    }
}

/// Accumulates bytes and yields whole frames.
pub struct Framer {
    buffer: Vec<u8>,
}

impl View for Framer {
    type V = Seq<u8>;

    closed spec fn view(&self) -> Seq<u8> {
        self.buffer@
    }
}

impl Default for Framer {
    fn default() -> (r: Self)
        ensures
            r@ == Seq::<u8>::empty(),
    {
        let r = Framer { buffer: Vec::new() };
        assert(r@ =~= Seq::<u8>::empty());
        r
    }
}

impl Framer {
    /// Take in what arrived.
    pub fn feed(&mut self, bytes: &[u8])
        ensures
            final(self)@ == old(self)@ + bytes@,
    {
        bytes::append(&mut self.buffer, bytes);
    }

    /// The next whole frame, decrypted if a key is given. None means that what has arrived is
    /// not yet a frame, and leaves it alone: the counter is used only when a frame comes out.
    pub fn next(&mut self, key: Option<&[u8; 32]>, counter: u64) -> (r: Option<
        Result<(u8, Vec<u8>), String>,
    >)
        ensures
            match r {
                None => !complete(old(self)@) && final(self)@ == old(self)@,
                Some(outcome) => {
                    &&& complete(old(self)@)
                    &&& final(self)@ == left(old(self)@)
                    &&& final(self)@.len() < old(self)@.len()
                    &&& match (outcome, read(old(self)@, key_of(key), counter)) {
                        (Ok((kind, payload)), Ok((k, p))) => kind == k && payload@ == p,
                        (Err(e), Err(why)) => e@ == why,
                        _ => false,
                    }
                },
            },
    {
        let n: usize = self.buffer.len();
        if n < HEADER {
            return None;
        }
        let kind: u8 = self.buffer[0];
        let len: usize = 0x1_0000 * self.buffer[1] as usize + 0x100 * self.buffer[2] as usize
            + self.buffer[3] as usize;
        if n - HEADER < len {
            return None;
        }
        let ghost before = self.buffer@;
        let all = self.buffer.as_slice();
        let head = bytes::copy(bytes::front(all, HEADER));
        let body = bytes::copy(bytes::front(bytes::back(all, HEADER), len));
        let rest = bytes::copy(bytes::back(all, HEADER + len));
        assert(body@ =~= before.subrange(HEADER as int, HEADER + len));
        self.buffer = rest;
        match key {
            Some(k) if body.len() > 0 => Some(
                settle(kind, srp::session_open(k, counter, head.as_slice(), body.as_slice())),
            ),
            _ => Some(Ok((kind, body))),
        }
    }

    /// Whether anything is half-received.
    pub fn pending(&self) -> (r: bool)
        ensures
            r == (self@.len() > 0),
    {
        self.buffer.len() > 0
    }

    /// Whatever is half-received, taken out.
    pub fn take(&mut self) -> (r: Vec<u8>)
        ensures
            r@ == old(self)@,
            final(self)@ == Seq::<u8>::empty(),
    {
        let mut out: Vec<u8> = Vec::new();
        std::mem::swap(&mut out, &mut self.buffer);
        assert(self@ =~= Seq::<u8>::empty());
        out
    }
}

} // verus!
