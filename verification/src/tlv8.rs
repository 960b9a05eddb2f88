//! TLV8: the type, length and value encoding that the pairing messages are made of.
//!
//! One byte of type, one byte of length, then that many bytes. A value longer than 255 bytes is
//! split across entries of the same type that follow one another, and is joined again on
//! reading: an SRP public key has 384 bytes and always arrives in two fragments.

use crate::bytes;
use crate::text;
use vstd::prelude::*;

verus! {

pub const METHOD: u8 = 0x00;

pub const IDENTIFIER: u8 = 0x01;

pub const SALT: u8 = 0x02;

pub const PUBLIC_KEY: u8 = 0x03;

pub const PROOF: u8 = 0x04;

pub const ENCRYPTED_DATA: u8 = 0x05;

pub const STATE: u8 = 0x06;

pub const ERROR: u8 = 0x07;

pub const SIGNATURE: u8 = 0x0A;

/// Apple's own: an OPACK blob that names the controller.
pub const NAME: u8 = 0x11;

/// Entries as mathematical objects.
pub open spec fn entries(items: Seq<(u8, Vec<u8>)>) -> Seq<(u8, Seq<u8>)> {
    Seq::new(items.len(), |i: int| (items[i].0, items[i].1@))
}

/// Entries, one for one and part by part.
pub proof fn law_entries_say(items: Seq<(u8, Vec<u8>)>)
    ensures
        entries(items).len() == items.len(),
        forall|i: int|
            0 <= i < items.len() ==> entries(items)[i].0 == (#[trigger] items[i]).0 && entries(
                items,
            )[i].1 == items[i].1@,
{
}

/// One value on the wire: as one entry, or in fragments of 255 bytes and what is left.
pub open spec fn wire(ty: u8, value: Seq<u8>) -> Seq<u8>
    decreases value.len(),
{
    if value.len() <= 255 {
        seq![ty, value.len() as u8] + value
    } else {
        seq![ty, 255u8] + value.take(255) + wire(ty, value.skip(255))
    }
}

/// Entries on the wire, one after another.
pub open spec fn encoded(items: Seq<(u8, Seq<u8>)>) -> Seq<u8>
    decreases items.len(),
{
    if items.len() == 0 {
        seq![]
    } else {
        encoded(items.drop_last()) + wire(items.last().0, items.last().1)
    }
}

/// The whole entries at the front of `data`, before any joining.
pub open spec fn fragments(data: Seq<u8>) -> Seq<(u8, Seq<u8>)>
    decreases data.len(),
{
    if data.len() < 2 || data.len() < 2 + data[1] {
        seq![]
    } else {
        seq![(data[0], data.subrange(2, 2 + data[1]))] + fragments(data.skip(2 + data[1]))
    }
}

/// One more fragment after the entries of `done`: the rest of the last one if it has its type.
pub open spec fn join(done: Seq<(u8, Seq<u8>)>, next: (u8, Seq<u8>)) -> Seq<(u8, Seq<u8>)> {
    if done.len() > 0 && done.last().0 == next.0 {
        done.drop_last().push((next.0, done.last().1 + next.1))
    } else {
        done.push(next)
    }
}

/// Entries with neighbours of the same type joined.
pub open spec fn joined(parts: Seq<(u8, Seq<u8>)>) -> Seq<(u8, Seq<u8>)>
    decreases parts.len(),
{
    if parts.len() == 0 {
        seq![]
    } else {
        join(joined(parts.drop_last()), parts.last())
    }
}

/// What `data` says. A truncated entry, and what would follow it, is left out.
pub open spec fn decoded(data: Seq<u8>) -> Seq<(u8, Seq<u8>)> {
    joined(fragments(data))
}

/// The first value of type `ty`.
pub open spec fn lookup(items: Seq<(u8, Seq<u8>)>, ty: u8) -> Option<Seq<u8>>
    decreases items.len(),
{
    if items.len() == 0 {
        None
    } else if items[0].0 == ty {
        Some(items[0].1)
    } else {
        lookup(items.skip(1), ty)
    }
}

/// A refusal in words.
pub open spec fn refusal(code: u8) -> Seq<char> {
    if code == 0x01 {
        "the Apple TV refused the request"@
    } else if code == 0x02 {
        "wrong PIN — the Apple TV rejected the code"@
    } else if code == 0x03 {
        "too many attempts; the Apple TV is refusing new ones for a while"@
    } else if code == 0x04 {
        "the Apple TV will not pair with any more controllers"@
    } else if code == 0x05 {
        "too many wrong PINs — restart the Apple TV to try again"@
    } else if code == 0x06 {
        "the Apple TV is not accepting pairings right now"@
    } else if code == 0x07 {
        "the Apple TV is busy pairing with something else"@
    } else {
        "the Apple TV refused pairing (code "@ + text::decimal(code as nat) + ")"@
    }
}

/// The refusal that `items` hold, if they hold one.
pub open spec fn refused(items: Seq<(u8, Seq<u8>)>) -> Option<Seq<char>> {
    match lookup(items, ERROR) {
        Some(v) => if v.len() > 0 {
            Some(refusal(v[0]))
        } else {
            None
        },
        None => None,
    }
}

/// Append one value.
fn push(out: &mut Vec<u8>, ty: u8, value: &[u8])
    ensures
        final(out)@ == old(out)@ + wire(ty, value@),
{
    let mut rest = value;
    assert(out@ + wire(ty, rest@) == old(out)@ + wire(ty, value@));
    while rest.len() > 255
        invariant
            out@ + wire(ty, rest@) == old(out)@ + wire(ty, value@),
        decreases rest@.len(),
    {
        let ghost before = out@;
        let ghost whole = rest@;
        out.push(ty);
        out.push(255);
        bytes::append(out, bytes::front(rest, 255));
        rest = bytes::back(rest, 255);
        assert(out@ + wire(ty, rest@) =~= before + wire(ty, whole));
    }
    let ghost before = out@;
    out.push(ty);
    out.push(rest.len() as u8);
    bytes::append(out, rest);
    assert(out@ =~= before + wire(ty, rest@));
}

/// The bytes of `items`, in order.
pub fn encode(items: &[(u8, Vec<u8>)]) -> (r: Vec<u8>)
    ensures
        r@ == encoded(entries(items@)),
        decoded(r@) == joined(entries(items@)),
{
    let mut out: Vec<u8> = Vec::new();
    let mut i: usize = 0;
    let ghost all = entries(items@);
    assert(out@ =~= encoded(all.take(0)));
    while i < items.len()
        invariant
            i <= items@.len(),
            all == entries(items@),
            out@ == encoded(all.take(i as int)),
        decreases items@.len() - i,
    {
        push(&mut out, items[i].0, items[i].1.as_slice());
        i += 1;
        assert(all.take(i as int).drop_last() =~= all.take(i - 1));
    }
    assert(all.take(all.len() as int) =~= all);
    proof {
        law_round_trip(all);
    }
    out
}

/// Every entry, with fragments of the same type joined together again. What is truncated is left
/// out, and what came before it is kept.
pub fn decode(data: &[u8]) -> (r: Vec<(u8, Vec<u8>)>)
    ensures
        entries(r@) == decoded(data@),
{
    let mut out: Vec<(u8, Vec<u8>)> = Vec::new();
    let mut rest = data;
    let ghost mut done: Seq<(u8, Seq<u8>)> = seq![];
    assert(entries(out@) =~= joined(done));
    assert(done + fragments(rest@) =~= fragments(data@));
    while rest.len() >= 2 && rest.len() >= 2 + rest[1] as usize
        invariant
            entries(out@) == joined(done),
            done + fragments(rest@) == fragments(data@),
        decreases rest@.len(),
    {
        let ty: u8 = rest[0];
        let len: usize = rest[1] as usize;
        let value = bytes::front(bytes::back(rest, 2), len);
        let ghost part = (ty, value@);
        let ghost before = entries(out@);
        proof {
            assert(value@ =~= rest@.subrange(2, 2 + len));
            assert(done.push(part) + fragments(rest@.skip(2 + len)) =~= done + fragments(rest@));
            assert(done.push(part).drop_last() =~= done);
        }
        let n: usize = out.len();
        if n > 0 && out[n - 1].0 == ty {
            match out.pop() {
                Some((_, mut buf)) => {
                    assert(entries(out@) =~= before.drop_last());
                    bytes::append(&mut buf, value);
                    out.push((ty, buf));
                    assert(entries(out@) =~= join(before, part));
                },
                None => {},
            }
        } else {
            out.push((ty, bytes::copy(value)));
            assert(entries(out@) =~= join(before, part));
        }
        rest = bytes::back(rest, 2 + len);
        proof {
            done = done.push(part);
        }
    }
    assert(done + Seq::<(u8, Seq<u8>)>::empty() =~= done);
    out
}

/// The first value of type `ty`.
pub fn get(items: &[(u8, Vec<u8>)], ty: u8) -> (r: Option<&[u8]>)
    ensures
        match r {
            Some(v) => lookup(entries(items@), ty) == Some(v@),
            None => lookup(entries(items@), ty) is None,
        },
{
    let ghost all = entries(items@);
    let mut i: usize = 0;
    assert(all.skip(0) =~= all);
    while i < items.len()
        invariant
            i <= items@.len(),
            all == entries(items@),
            lookup(all, ty) == lookup(all.skip(i as int), ty),
        decreases items@.len() - i,
    {
        assert(all.skip(i as int)[0] == (items@[i as int].0, items@[i as int].1@));
        if items[i].0 == ty {
            return Some(items[i].1.as_slice());
        }
        assert(all.skip(i as int).skip(1) =~= all.skip(i + 1));
        i += 1;
    }
    None
}

/// The refusal that `items` hold, in words that somebody with a remote in hand can act on.
pub fn error(items: &[(u8, Vec<u8>)]) -> (r: Option<String>)
    ensures
        match r {
            Some(why) => refused(entries(items@)) == Some(why@),
            None => refused(entries(items@)) is None,
        },
{
    let code: u8 = match get(items, ERROR) {
        Some(v) => {
            if v.len() == 0 {
                return None;
            }
            v[0]
        },
        None => {
            return None;
        },
    };
    Some(
        match code {
            0x01 => "the Apple TV refused the request".to_string(),
            0x02 => "wrong PIN — the Apple TV rejected the code".to_string(),
            0x03 => "too many attempts; the Apple TV is refusing new ones for a while".to_string(),
            0x04 => "the Apple TV will not pair with any more controllers".to_string(),
            0x05 => "too many wrong PINs — restart the Apple TV to try again".to_string(),
            0x06 => "the Apple TV is not accepting pairings right now".to_string(),
            0x07 => "the Apple TV is busy pairing with something else".to_string(),
            other => text::concat3(
                "the Apple TV refused pairing (code ",
                text::decimal_text(other as u64).as_str(),
                ")",
            ),
        },
    )
}

// --------------------------------------------------------------------------------------------
// Laws
// --------------------------------------------------------------------------------------------

/// The fragments of one value.
pub open spec fn split(ty: u8, value: Seq<u8>) -> Seq<(u8, Seq<u8>)>
    decreases value.len(),
{
    if value.len() <= 255 {
        seq![(ty, value)]
    } else {
        seq![(ty, value.take(255))] + split(ty, value.skip(255))
    }
}

/// One value on the wire is read as its fragments, whatever follows.
proof fn lemma_fragments(ty: u8, value: Seq<u8>, tail: Seq<u8>)
    ensures
        fragments(wire(ty, value) + tail) == split(ty, value) + fragments(tail),
    decreases value.len(),
{
    let data = wire(ty, value) + tail;
    if value.len() <= 255 {
        assert(data.subrange(2, 2 + data[1]) =~= value);
        assert(data.skip(2 + data[1]) =~= tail);
    } else {
        let rest = wire(ty, value.skip(255));
        lemma_fragments(ty, value.skip(255), tail);
        assert(data.subrange(2, 257) =~= value.take(255));
        assert(data.skip(257) =~= rest + tail);
        assert(split(ty, value) + fragments(tail) =~= seq![(ty, value.take(255))] + (split(
            ty,
            value.skip(255),
        ) + fragments(tail)));
    }
}

/// Joining goes on where it stopped.
proof fn lemma_joined_more(a: Seq<(u8, Seq<u8>)>, part: (u8, Seq<u8>))
    ensures
        joined(a.push(part)) == join(joined(a), part),
{
    assert(a.push(part).drop_last() =~= a);
}

/// The fragments of a value come together as the value, behind whatever was there.
proof fn lemma_split_joined(a: Seq<(u8, Seq<u8>)>, ty: u8, value: Seq<u8>)
    ensures
        joined(a + split(ty, value)) == join(joined(a), (ty, value)),
    decreases value.len(),
{
    if value.len() <= 255 {
        assert(a + split(ty, value) =~= a.push((ty, value)));
        lemma_joined_more(a, (ty, value));
    } else {
        let first = (ty, value.take(255));
        let more = a.push(first);
        assert(a + split(ty, value) =~= more + split(ty, value.skip(255)));
        lemma_split_joined(more, ty, value.skip(255));
        lemma_joined_more(a, first);
        let b = joined(a);
        assert(value.take(255) + value.skip(255) =~= value);
        if b.len() > 0 && b.last().0 == ty {
            assert(b.last().1 + value.take(255) + value.skip(255) =~= b.last().1 + value);
            assert(join(join(b, first), (ty, value.skip(255))) =~= join(b, (ty, value)));
        } else {
            assert(join(join(b, first), (ty, value.skip(255))) =~= join(b, (ty, value)));
        }
    }
}

/// Everything in front of the last entry is read as it would be alone.
proof fn lemma_encoded_fragments(items: Seq<(u8, Seq<u8>)>, tail: Seq<u8>) -> (parts: Seq<
    (u8, Seq<u8>),
>)
    ensures
        fragments(encoded(items) + tail) == parts + fragments(tail),
        joined(parts) == joined(items),
    decreases items.len(),
{
    if items.len() == 0 {
        assert(encoded(items) + tail =~= tail);
        let parts = Seq::<(u8, Seq<u8>)>::empty();
        assert(parts + fragments(tail) =~= fragments(tail));
        assert(items =~= parts);
        parts
    } else {
        let (ty, value) = items.last();
        let rest = wire(ty, value) + tail;
        assert(encoded(items) + tail =~= encoded(items.drop_last()) + rest);
        let front = lemma_encoded_fragments(items.drop_last(), rest);
        lemma_fragments(ty, value, tail);
        lemma_split_joined(front, ty, value);
        let parts = front + split(ty, value);
        assert(parts + fragments(tail) =~= front + (split(ty, value) + fragments(tail)));
        parts
    }
}

/// What was encoded is decoded with neighbours of the same type joined, and in no other way
/// changed: a value of any length comes back whole.
pub proof fn law_round_trip(items: Seq<(u8, Seq<u8>)>)
    ensures
        decoded(encoded(items)) == joined(items),
{
    let parts = lemma_encoded_fragments(items, seq![]);
    assert(encoded(items) + Seq::<u8>::empty() =~= encoded(items));
    assert(fragments(Seq::<u8>::empty()) =~= seq![]);
    assert(parts + Seq::<(u8, Seq<u8>)>::empty() =~= parts);
}

/// No two neighbours have the same type.
pub open spec fn apart(items: Seq<(u8, Seq<u8>)>) -> bool {
    forall|i: int| 0 < i < items.len() ==> items[i - 1].0 != (#[trigger] items[i]).0
}

/// Where no two neighbours have the same type, what was encoded comes back entry by entry.
/// Entries of one type with something between them stay separate.
pub proof fn law_separate_entries_round_trip(items: Seq<(u8, Seq<u8>)>)
    requires
        apart(items),
    ensures
        decoded(encoded(items)) == items,
{
    law_round_trip(items);
    lemma_joined_apart(items);
}

proof fn lemma_joined_apart(items: Seq<(u8, Seq<u8>)>)
    requires
        apart(items),
    ensures
        joined(items) == items,
    decreases items.len(),
{
    if items.len() > 0 {
        let front = items.drop_last();
        assert forall|i: int| 0 < i < front.len() implies front[i - 1].0 != (#[trigger] front[i]).0 by {
            assert(items[i - 1].0 != items[i].0);
        }
        lemma_joined_apart(front);
        if front.len() > 0 {
            assert(items[items.len() - 2].0 != items[items.len() - 1].0);
        }
        assert(front.push(items.last()) =~= items);
    } else {
        assert(joined(items) =~= items);
    }
}

/// A fragment holds at most 255 bytes.
pub proof fn law_fragments_fit(ty: u8, value: Seq<u8>)
    ensures
        forall|i: int|
            0 <= i < split(ty, value).len() ==> (#[trigger] split(ty, value)[i]).1.len() <= 255,
        fragments(wire(ty, value)) == split(ty, value),
    decreases value.len(),
{
    lemma_fragments(ty, value, seq![]);
    assert(wire(ty, value) + Seq::<u8>::empty() =~= wire(ty, value));
    assert(fragments(Seq::<u8>::empty()) =~= seq![]);
    assert(split(ty, value) + Seq::<(u8, Seq<u8>)>::empty() =~= split(ty, value));
    if value.len() > 255 {
        law_fragments_fit(ty, value.skip(255));
    }
}

/// A message that was cut short still says what it said before the cut: its whole entries are
/// the first of the message's.
pub proof fn law_truncation_keeps_what_parsed(data: Seq<u8>, n: int)
    requires
        0 <= n <= data.len(),
    ensures
        fragments(data.take(n)).is_prefix_of(fragments(data)),
    decreases data.len(),
{
    let cut = data.take(n);
    if cut.len() < 2 || cut.len() < 2 + cut[1] {
    } else {
        let k = 2 + data[1];
        assert(cut.subrange(2, k) =~= data.subrange(2, k));
        assert(cut.skip(k) =~= data.skip(k).take(n - k));
        law_truncation_keeps_what_parsed(data.skip(k), n - k);
        let a = fragments(cut.skip(k));
        let b = fragments(data.skip(k));
        let first = seq![(data[0], data.subrange(2, k))];
        assert(b =~= a + b.skip(a.len() as int));
        assert(first + a =~= (first + b).take((first + a).len() as int));
    }
}

/// Entries follow one another on the wire, each as its type, the number of its bytes, and its
/// bytes. A value of more than 255 bytes is on the wire as its first 255, and then the rest, would
/// be as two values.
pub proof fn law_wire_format(items: Seq<(u8, Seq<u8>)>, ty: u8, value: Seq<u8>)
    ensures
        encoded(Seq::<(u8, Seq<u8>)>::empty()) == Seq::<u8>::empty(),
        value.len() <= 255 ==> encoded(items.push((ty, value))) == encoded(items) + seq![
            ty,
            value.len() as u8,
        ] + value,
        value.len() > 255 ==> encoded(items.push((ty, value))) == encoded(
            items.push((ty, value.take(255))).push((ty, value.skip(255))),
        ),
{
    assert(items.push((ty, value)).drop_last() =~= items);
    if value.len() <= 255 {
        assert(encoded(items.push((ty, value))) =~= encoded(items) + seq![ty, value.len() as u8]
            + value);
    } else {
        let one = items.push((ty, value.take(255)));
        let two = one.push((ty, value.skip(255)));
        assert(one.drop_last() =~= items);
        assert(two.drop_last() =~= one);
        assert(encoded(one) == encoded(items) + wire(ty, value.take(255)));
        assert(encoded(two) =~= encoded(items.push((ty, value))));
    }
}

/// A reader takes a byte of type, a byte of length and that many bytes for an entry, and goes on
/// behind them. Where fewer bytes are left than that, there is no entry, and nothing behind it.
pub proof fn law_read_format(ty: u8, value: Seq<u8>, tail: Seq<u8>)
    ensures
        value.len() <= 255 ==> fragments(seq![ty, value.len() as u8] + value + tail) == seq![
            (ty, value),
        ] + fragments(tail),
        tail.len() < 2 ==> fragments(tail) == Seq::<(u8, Seq<u8>)>::empty(),
        tail.len() >= 2 && tail.len() < 2 + tail[1] ==> fragments(tail) == Seq::<
            (u8, Seq<u8>),
        >::empty(),
        decoded(tail) == joined(fragments(tail)),
{
    if value.len() <= 255 {
        lemma_fragments(ty, value, tail);
    }
}

/// Two neighbours of the same type come to one with the bytes of both, in order, whatever stands
/// in front of them and behind; and where no two neighbours have the same type, nothing changes.
pub proof fn law_joining(
    a: Seq<(u8, Seq<u8>)>,
    ty: u8,
    x: Seq<u8>,
    y: Seq<u8>,
    b: Seq<(u8, Seq<u8>)>,
)
    ensures
        joined(a + seq![(ty, x), (ty, y)] + b) == joined(a + seq![(ty, x + y)] + b),
        (forall|i: int| 0 < i < a.len() ==> a[i - 1].0 != (#[trigger] a[i]).0) ==> joined(a) == a,
    decreases b.len(),
{
    if apart(a) {
        lemma_joined_apart(a);
    }
    let two = a + seq![(ty, x), (ty, y)];
    let one = a + seq![(ty, x + y)];
    if b.len() == 0 {
        assert(two + b =~= a.push((ty, x)).push((ty, y)));
        assert(one + b =~= a.push((ty, x + y)));
        lemma_joined_more(a, (ty, x));
        lemma_joined_more(a.push((ty, x)), (ty, y));
        lemma_joined_more(a, (ty, x + y));
        let j = joined(a);
        if j.len() > 0 && j.last().0 == ty {
            assert(j.last().1 + x + y =~= j.last().1 + (x + y));
        }
        assert(join(join(j, (ty, x)), (ty, y)) =~= join(j, (ty, x + y)));
    } else {
        law_joining(a, ty, x, y, b.drop_last());
        assert(two + b =~= (two + b.drop_last()).push(b.last()));
        assert(one + b =~= (one + b.drop_last()).push(b.last()));
        lemma_joined_more(two + b.drop_last(), b.last());
        lemma_joined_more(one + b.drop_last(), b.last());
    }
}

/// What is found under a type is the first value of that type; where there is none, nothing.
pub proof fn law_first_of_a_type(items: Seq<(u8, Seq<u8>)>, ty: u8)
    ensures
        match lookup(items, ty) {
            Some(v) => exists|i: int|
                0 <= i < items.len() && #[trigger] items[i] == (ty, v) && forall|j: int|
                    0 <= j < i ==> (#[trigger] items[j]).0 != ty,
            None => forall|j: int| 0 <= j < items.len() ==> (#[trigger] items[j]).0 != ty,
        },
    decreases items.len(),
{
    if items.len() == 0 {
    } else if items[0].0 == ty {
        assert(items[0] == (ty, items[0].1));
    } else {
        let rest = items.skip(1);
        law_first_of_a_type(rest, ty);
        match lookup(rest, ty) {
            Some(v) => {
                let i = choose|i: int|
                    0 <= i < rest.len() && #[trigger] rest[i] == (ty, v) && forall|j: int|
                        0 <= j < i ==> (#[trigger] rest[j]).0 != ty;
                assert(items[i + 1] == rest[i]);
                assert forall|j: int| 0 <= j < i + 1 implies (#[trigger] items[j]).0 != ty by {
                    if j > 0 {
                        assert(rest[j - 1] == items[j]);
                    }
                }
            },
            None => {
                assert forall|j: int| 0 <= j < items.len() implies (#[trigger] items[j]).0 != ty by {
                    if j > 0 {
                        assert(rest[j - 1] == items[j]);
                    }
                }
            },
        }
    }
}

/// The types that the handshake uses, as they are numbered on the wire.
pub proof fn law_types()
    ensures
        METHOD == 0,
        IDENTIFIER == 1,
        SALT == 2,
        PUBLIC_KEY == 3,
        PROOF == 4,
        ENCRYPTED_DATA == 5,
        STATE == 6,
        ERROR == 7,
        SIGNATURE == 10,
        NAME == 17,
{
}

/// Entries are a refusal exactly where the first value of type 7 has a byte. Which one it is
/// decides what is said: no two of the codes from 1 to 7 are told alike, and any other code is
/// told by its number.
pub proof fn law_refusals(items: Seq<(u8, Seq<u8>)>)
    ensures
        refused(items) is Some <==> lookup(items, 7) is Some && lookup(items, 7)->0.len() > 0,
        refused(items) is Some ==> {
            let code = lookup(items, 7)->0[0];
            let why = refused(items)->0;
            &&& code == 1 <==> why == "the Apple TV refused the request"@
            &&& code == 2 <==> why == "wrong PIN — the Apple TV rejected the code"@
            &&& code == 3 <==> why
                == "too many attempts; the Apple TV is refusing new ones for a while"@
            &&& code == 4 <==> why == "the Apple TV will not pair with any more controllers"@
            &&& code == 5 <==> why == "too many wrong PINs — restart the Apple TV to try again"@
            &&& code == 6 <==> why == "the Apple TV is not accepting pairings right now"@
            &&& code == 7 <==> why == "the Apple TV is busy pairing with something else"@
            &&& !(1 <= code <= 7) ==> why == "the Apple TV refused pairing (code "@
                + text::decimal(code as nat) + ")"@
        },
{
    reveal_strlit("the Apple TV refused the request");
    reveal_strlit("wrong PIN — the Apple TV rejected the code");
    reveal_strlit("too many attempts; the Apple TV is refusing new ones for a while");
    reveal_strlit("the Apple TV will not pair with any more controllers");
    reveal_strlit("too many wrong PINs — restart the Apple TV to try again");
    reveal_strlit("the Apple TV is not accepting pairings right now");
    reveal_strlit("the Apple TV is busy pairing with something else");
    reveal_strlit("the Apple TV refused pairing (code ");
    if refused(items) is Some {
        let why = refused(items)->0;
        let code = lookup(items, 7)->0[0];
        let a = "the Apple TV refused the request"@;
        let b = "wrong PIN — the Apple TV rejected the code"@;
        let c = "too many attempts; the Apple TV is refusing new ones for a while"@;
        let d = "the Apple TV will not pair with any more controllers"@;
        let e = "too many wrong PINs — restart the Apple TV to try again"@;
        let f = "the Apple TV is not accepting pairings right now"@;
        let g = "the Apple TV is busy pairing with something else"@;
        assert(a[13] == 'r' && d[13] == 'w' && f[13] == 'i' && g[13] == 'i');
        assert(a[0] == 't' && b[0] == 'w' && c[0] == 't' && d[0] == 't' && e[0] == 't');
        assert(a[1] == 'h' && c[1] == 'o' && d[1] == 'h' && e[1] == 'o');
        assert(c[9] == 'a' && e[9] == 'w');
        assert(f[16] == 'n' && g[16] == 'b');
        assert(a[21] == 't');
        if !(1 <= code <= 7) {
            assert(why[13] == 'r');
            assert(why[21] == 'p');
            assert(why[0] == 't' && why[1] == 'h');
        }
    }
}

} // verus!
