//! What OPACK means: the bytes that stand for a value, and the value that bytes stand for.

use crate::bytes;
use crate::hex;
use crate::strmap;
use crate::text;
use vstd::prelude::*;
use vstd::utf8::*;

verus! {

/// An OPACK value as a mathematical object.
pub enum Node {
    Null,
    Bool(bool),
    Int(u64),
    Str(Seq<char>),
    Data(Seq<u8>),
    Uuid(Seq<u8>),
    Arr(Seq<Node>),
    /// The entries, in the order of their keys.
    Dict(Seq<(Seq<char>, Node)>),
}

impl Node {
    /// An array or a dictionary.
    pub open spec fn is_collection(self) -> bool {
        self is Arr || self is Dict
    }
}

/// A value that a `Val` can hold: a UUID has sixteen bytes, and the keys of a dictionary ascend.
pub open spec fn wf(v: Node) -> bool
    decreases v,
{
    match v {
        Node::Uuid(u) => u.len() == 16,
        Node::Arr(items) => forall|i: int| 0 <= i < items.len() ==> wf(#[trigger] items[i]),
        Node::Dict(pairs) => strmap::ascending(pairs) && (forall|i: int|
            0 <= i < pairs.len() ==> wf((#[trigger] pairs[i]).1)),
        _ => true,
    }
}

// --------------------------------------------------------------------------------------------
// Writing
// --------------------------------------------------------------------------------------------

/// An integer: below 0x28 in the tag itself, else in the fewest of 1, 2, 4 or 8 bytes.
pub open spec fn int_bytes(i: u64) -> Seq<u8> {
    if i < 0x28 {
        seq![(i + 8) as u8]
    } else if i <= 0xFF {
        seq![0x30u8] + bytes::le_bytes(i as nat, 1)
    } else if i <= 0xFFFF {
        seq![0x31u8] + bytes::le_bytes(i as nat, 2)
    } else if i <= 0xFFFF_FFFF {
        seq![0x32u8] + bytes::le_bytes(i as nat, 4)
    } else {
        seq![0x33u8] + bytes::le_bytes(i as nat, 8)
    }
}

/// What comes before the `n` bytes of a string. Of a length over four bytes the low four stay.
pub open spec fn str_head(n: nat) -> Seq<u8> {
    if n <= 0x20 {
        seq![(0x40 + n) as u8]
    } else if n <= 0xFF {
        seq![0x61u8] + bytes::le_bytes(n, 1)
    } else if n <= 0xFFFF {
        seq![0x62u8] + bytes::le_bytes(n, 2)
    } else if n <= 0xFF_FFFF {
        seq![0x63u8] + bytes::le_bytes(n, 3)
    } else {
        seq![0x64u8] + bytes::le_bytes(n, 4)
    }
}

/// What comes before `n` bytes of data. Of a length over four bytes the low four stay.
pub open spec fn data_head(n: nat) -> Seq<u8> {
    if n <= 0x20 {
        seq![(0x70 + n) as u8]
    } else if n <= 0xFF {
        seq![0x91u8] + bytes::le_bytes(n, 1)
    } else if n <= 0xFFFF {
        seq![0x92u8] + bytes::le_bytes(n, 2)
    } else {
        seq![0x93u8] + bytes::le_bytes(n, 4)
    }
}

/// A back-reference to the object at `index` of the table.
pub open spec fn ref_bytes(index: nat) -> Seq<u8> {
    if index < 0x21 {
        seq![(0xA0 + index) as u8]
    } else if index <= 0xFF {
        seq![0xC1u8] + bytes::le_bytes(index, 1)
    } else if index <= 0xFFFF {
        seq![0xC2u8] + bytes::le_bytes(index, 2)
    } else if index <= 0xFFFF_FFFF {
        seq![0xC3u8] + bytes::le_bytes(index, 4)
    } else {
        seq![0xC4u8] + bytes::le_bytes(index, 8)
    }
}

/// A value that holds no other, written out.
pub open spec fn scalar(v: Node) -> Seq<u8> {
    match v {
        Node::Null => seq![0x04u8],
        Node::Bool(b) => seq![if b { 0x01u8 } else { 0x02u8 }],
        Node::Int(i) => int_bytes(i),
        Node::Str(t) => str_head(encode_utf8(t).len()) + encode_utf8(t),
        Node::Data(d) => data_head(d.len()) + d,
        Node::Uuid(u) => seq![0x05u8] + u,
        _ => seq![],
    }
}

/// The tag of a collection of `n` entries: `base` and the count, or fifteen where it is endless.
pub open spec fn open_tag(base: u8, n: nat) -> Seq<u8> {
    seq![(base + if n < 0xF { n as int } else { 0xF }) as u8]
}

/// What ends a collection of `n` entries.
pub open spec fn close_tag(n: nat) -> Seq<u8> {
    if n < 0xF {
        seq![]
    } else {
        seq![0x03u8]
    }
}

/// Where `whole` first stands in the table.
pub open spec fn place(seen: Seq<Seq<u8>>, whole: Seq<u8>) -> Option<nat>
    decreases seen.len(),
{
    if seen.len() == 0 {
        None
    } else {
        match place(seen.drop_last(), whole) {
            Some(i) => Some(i),
            None => if seen.last() == whole {
                Some((seen.len() - 1) as nat)
            } else {
                None
            },
        }
    }
}

/// What is sent for an object whose full bytes are `whole`, and the table after it: its index
/// where it was sent before, else itself, remembered if it is longer than one byte.
pub open spec fn settle(whole: Seq<u8>, seen: Seq<Seq<u8>>) -> (Seq<u8>, Seq<Seq<u8>>) {
    match place(seen, whole) {
        Some(i) => (ref_bytes(i), seen),
        None => (whole, if whole.len() > 1 {
            seen.push(whole)
        } else {
            seen
        }),
    }
}

/// The full bytes of `v`, its parts written through the table `seen`, and the table after them.
pub open spec fn full(v: Node, seen: Seq<Seq<u8>>) -> (Seq<u8>, Seq<Seq<u8>>)
    decreases v, 0int,
{
    match v {
        Node::Arr(items) => {
            let (parts, after) = emit_all(items, seen);
            (open_tag(0xD0, items.len()) + parts + close_tag(items.len()), after)
        },
        Node::Dict(pairs) => {
            let (parts, after) = emit_pairs(pairs, seen);
            (open_tag(0xE0, pairs.len()) + parts + close_tag(pairs.len()), after)
        },
        _ => (scalar(v), seen),
    }
}

/// What is sent for `v` after the objects in `seen`, and the table after it.
pub open spec fn emit(v: Node, seen: Seq<Seq<u8>>) -> (Seq<u8>, Seq<Seq<u8>>)
    decreases v, 1int,
{
    let (whole, after) = full(v, seen);
    settle(whole, after)
}

/// `items` one after another.
pub open spec fn emit_all(items: Seq<Node>, seen: Seq<Seq<u8>>) -> (Seq<u8>, Seq<Seq<u8>>)
    decreases items, 0int,
{
    if items.len() == 0 {
        (seq![], seen)
    } else {
        let (first, then) = emit(items[0], seen);
        let (rest, after) = emit_all(items.skip(1), then);
        (first + rest, after)
    }
}

/// The entries of a dictionary one after another, each its key and then its value.
pub open spec fn emit_pairs(
    pairs: Seq<(Seq<char>, Node)>,
    seen: Seq<Seq<u8>>,
) -> (Seq<u8>, Seq<Seq<u8>>)
    decreases pairs, 0int,
{
    if pairs.len() == 0 {
        (seq![], seen)
    } else {
        let (key, mid) = settle(scalar(Node::Str(pairs[0].0)), seen);
        let (value, then) = emit(pairs[0].1, mid);
        let (rest, after) = emit_pairs(pairs.skip(1), then);
        (key + value + rest, after)
    }
}

/// The bytes of `v`.
pub open spec fn packed(v: Node) -> Seq<u8> {
    emit(v, seq![]).0
}

/// The bytes of `v`, under a name that proofs which only pass them on need not look behind.
#[verifier::opaque]
pub open spec fn wire_of(v: Node) -> Seq<u8> {
    packed(v)
}

// --------------------------------------------------------------------------------------------
// Reading
// --------------------------------------------------------------------------------------------

/// What a reader makes of bytes: a value, the bytes after it and its table then; or a complaint.
pub type Parsed<T> = Result<(T, Seq<u8>, Seq<Node>), Seq<char>>;

/// The complaint that `n` bytes were wanted and `left` were there.
pub open spec fn wanted(n: nat, left: nat) -> Seq<char> {
    "opack: wanted "@ + text::decimal(n) + " bytes, "@ + text::decimal(left) + " left"@
}

/// The complaint that the table has no object at `i`.
pub open spec fn past_the_end(i: nat) -> Seq<char> {
    "opack: back-reference "@ + text::decimal(i) + " past the end"@
}

/// The complaint that no value begins with `tag`.
pub open spec fn unknown_tag(tag: u8) -> Seq<char> {
    "opack: unknown tag 0x"@ + hex::hex_pair(tag)
}

/// The number in `s`, as far as the machine's word holds it.
pub open spec fn word(s: Seq<u8>) -> nat {
    (bytes::le_nat(s) as u64) as usize as nat
}

/// The reader's table after `v` was read in full: `v` joins it once.
pub open spec fn remember(seen: Seq<Node>, v: Node) -> Seq<Node> {
    if seen.contains(v) {
        seen
    } else {
        seen.push(v)
    }
}

/// `n` bytes of `rest`, read as `make` says and remembered.
pub open spec fn sized(
    rest: Seq<u8>,
    n: nat,
    seen: Seq<Node>,
    make: spec_fn(Seq<u8>) -> Node,
) -> Parsed<Node> {
    if rest.len() < n {
        Err(wanted(n, rest.len()))
    } else {
        let v = make(rest.take(n as int));
        Ok((v, rest.skip(n as int), remember(seen, v)))
    }
}

/// A length of `w` bytes, and then that many bytes, read as `make` says and remembered.
pub open spec fn measured(
    rest: Seq<u8>,
    w: nat,
    seen: Seq<Node>,
    make: spec_fn(Seq<u8>) -> Node,
) -> Parsed<Node> {
    if rest.len() < w {
        Err(wanted(w, rest.len()))
    } else {
        sized(rest.skip(w as int), word(rest.take(w as int)), seen, make)
    }
}

/// The object at `i` of the table.
pub open spec fn recall(seen: Seq<Node>, i: nat, rest: Seq<u8>) -> Parsed<Node> {
    if i < seen.len() {
        Ok((seen[i as int], rest, seen))
    } else {
        Err(past_the_end(i))
    }
}

/// Bytes read as an integer.
pub open spec fn as_int() -> spec_fn(Seq<u8>) -> Node {
    |b: Seq<u8>| Node::Int(bytes::le_nat(b) as u64)
}

/// Bytes read as text.
pub open spec fn as_text() -> spec_fn(Seq<u8>) -> Node {
    |b: Seq<u8>| Node::Str(text::lossy(b))
}

/// Bytes read as data.
pub open spec fn as_bytes() -> spec_fn(Seq<u8>) -> Node {
    |b: Seq<u8>| Node::Data(b)
}

/// Bytes read as a UUID.
pub open spec fn as_uuid() -> spec_fn(Seq<u8>) -> Node {
    |b: Seq<u8>| Node::Uuid(b)
}

/// One, two, four or eight, for nought to three.
pub open spec fn doubling(step: int) -> nat {
    if step == 0 {
        1
    } else if step == 1 {
        2
    } else if step == 2 {
        4
    } else {
        8
    }
}

/// The value that stands at the front of `data`, read against the table `seen`.
pub open spec fn decode(data: Seq<u8>, seen: Seq<Node>) -> Parsed<Node>
    decreases data.len(), 0int,
{
    if data.len() < 1 {
        Err(wanted(1, 0))
    } else {
        let tag = data[0];
        let rest = data.skip(1);
        if tag == 0x01 {
            Ok((Node::Bool(true), rest, seen))
        } else if tag == 0x02 {
            Ok((Node::Bool(false), rest, seen))
        } else if tag == 0x04 {
            Ok((Node::Null, rest, seen))
        } else if tag == 0x05 {
            sized(rest, 16, seen, as_uuid())
        } else if 0x08 <= tag <= 0x2F {
            Ok((Node::Int((tag - 8) as u64), rest, seen))
        } else if 0x30 <= tag <= 0x33 {
            sized(rest, doubling(tag - 0x30), seen, as_int())
        } else if tag == 0x35 {
            sized(rest, 4, seen, as_int())
        } else if tag == 0x36 {
            sized(rest, 8, seen, as_int())
        } else if 0x40 <= tag <= 0x60 {
            sized(rest, (tag - 0x40) as nat, seen, as_text())
        } else if 0x61 <= tag <= 0x64 {
            measured(rest, (tag - 0x60) as nat, seen, as_text())
        } else if 0x70 <= tag <= 0x90 {
            sized(rest, (tag - 0x70) as nat, seen, as_bytes())
        } else if 0x91 <= tag <= 0x94 {
            measured(rest, doubling(tag - 0x91), seen, as_bytes())
        } else if 0xA0 <= tag <= 0xC0 {
            recall(seen, (tag - 0xA0) as nat, rest)
        } else if 0xC1 <= tag <= 0xC4 {
            let w = doubling(tag - 0xC1);
            if rest.len() < w {
                Err(wanted(w, rest.len()))
            } else {
                recall(seen, word(rest.take(w as int)), rest.skip(w as int))
            }
        } else if 0xD0 <= tag <= 0xDF {
            let items = if tag == 0xDF {
                decode_endless(rest, seen)
            } else {
                decode_counted((tag - 0xD0) as nat, rest, seen)
            };
            match items {
                Ok((items, rest, seen)) => Ok((Node::Arr(items), rest, seen)),
                Err(e) => Err(e),
            }
        } else if 0xE0 <= tag <= 0xEF {
            let pairs = if tag == 0xEF {
                decode_endless_pairs(rest, seen)
            } else {
                decode_counted_pairs((tag - 0xE0) as nat, rest, seen)
            };
            match pairs {
                Ok((pairs, rest, seen)) => Ok((Node::Dict(strmap::gather(pairs)), rest, seen)),
                Err(e) => Err(e),
            }
        } else {
            Err(unknown_tag(tag))
        }
    }
}

/// `n` values one after another.
pub open spec fn decode_counted(n: nat, data: Seq<u8>, seen: Seq<Node>) -> Parsed<Seq<Node>>
    decreases data.len(), 1int,
{
    if n == 0 {
        Ok((seq![], data, seen))
    } else {
        match decode(data, seen) {
            Err(e) => Err(e),
            Ok((v, rest, seen)) => if rest.len() < data.len() {
                prepend(v, decode_counted((n - 1) as nat, rest, seen))
            } else {
                Err(seq![])
            },
        }
    }
}

/// Values one after another up to the closing byte.
pub open spec fn decode_endless(data: Seq<u8>, seen: Seq<Node>) -> Parsed<Seq<Node>>
    decreases data.len(), 1int,
{
    if data.len() < 1 {
        Err(wanted(1, 0))
    } else if data[0] == 0x03 {
        Ok((seq![], data.skip(1), seen))
    } else {
        match decode(data, seen) {
            Err(e) => Err(e),
            Ok((v, rest, seen)) => if rest.len() < data.len() {
                prepend(v, decode_endless(rest, seen))
            } else {
                Err(seq![])
            },
        }
    }
}

/// One entry of a dictionary. A key that is no text is written out as text.
pub open spec fn decode_pair(data: Seq<u8>, seen: Seq<Node>) -> Parsed<(Seq<char>, Node)>
    decreases data.len(), 1int,
{
    match decode(data, seen) {
        Err(e) => Err(e),
        Ok((k, rest, seen)) => if rest.len() < data.len() {
            match decode(rest, seen) {
                Err(e) => Err(e),
                Ok((v, rest, seen)) => Ok(((key_text(k), v), rest, seen)),
            }
        } else {
            Err(seq![])
        },
    }
}

/// `n` entries one after another.
pub open spec fn decode_counted_pairs(n: nat, data: Seq<u8>, seen: Seq<Node>) -> Parsed<
    Seq<(Seq<char>, Node)>,
>
    decreases data.len(), 2int,
{
    if n == 0 {
        Ok((seq![], data, seen))
    } else {
        match decode_pair(data, seen) {
            Err(e) => Err(e),
            Ok((pair, rest, seen)) => if rest.len() < data.len() {
                prepend(pair, decode_counted_pairs((n - 1) as nat, rest, seen))
            } else {
                Err(seq![])
            },
        }
    }
}

/// Entries one after another up to the closing byte.
pub open spec fn decode_endless_pairs(data: Seq<u8>, seen: Seq<Node>) -> Parsed<
    Seq<(Seq<char>, Node)>,
>
    decreases data.len(), 2int,
{
    if data.len() < 1 {
        Err(wanted(1, 0))
    } else if data[0] == 0x03 {
        Ok((seq![], data.skip(1), seen))
    } else {
        match decode_pair(data, seen) {
            Err(e) => Err(e),
            Ok((pair, rest, seen)) => if rest.len() < data.len() {
                prepend(pair, decode_endless_pairs(rest, seen))
            } else {
                Err(seq![])
            },
        }
    }
}

/// `first` in front of what was read after it.
pub open spec fn prepend<T>(first: T, then: Parsed<Seq<T>>) -> Parsed<Seq<T>> {
    match then {
        Ok((rest, left, seen)) => Ok((seq![first] + rest, left, seen)),
        Err(e) => Err(e),
    }
}

/// The value at the front of `data`, or why there is none. What follows it is left alone.
pub open spec fn unpacked(data: Seq<u8>) -> Result<Node, Seq<char>> {
    match decode(data, seq![]) {
        Ok((v, rest, seen)) => Ok(v),
        Err(e) => Err(e),
    }
}

/// The value at the front of `data`, under a name that proofs which only pass it on need not look
/// behind.
#[verifier::opaque]
pub open spec fn said_by(data: Seq<u8>) -> Result<Node, Seq<char>> {
    unpacked(data)
}

// --------------------------------------------------------------------------------------------
// Keys
// --------------------------------------------------------------------------------------------

/// The text under which a value stands as a key.
pub open spec fn key_text(k: Node) -> Seq<char> {
    match k {
        Node::Str(t) => t,
        _ => render(k),
    }
}

/// A value written for a reader: its kind, and what it holds in brackets.
pub open spec fn render(v: Node) -> Seq<char>
    decreases v,
{
    match v {
        Node::Null => "Null"@,
        Node::Bool(b) => if b {
            "Bool(true)"@
        } else {
            "Bool(false)"@
        },
        Node::Int(i) => "Int("@ + text::decimal(i as nat) + ")"@,
        Node::Str(t) => "Str("@ + text::quoted(t) + ")"@,
        Node::Data(d) => "Data(["@ + render_bytes(d) + "])"@,
        Node::Uuid(u) => "Uuid(["@ + render_bytes(u) + "])"@,
        Node::Arr(items) => "Arr(["@ + render_all(items) + "])"@,
        Node::Dict(pairs) => "Dict({"@ + render_pairs(pairs) + "})"@,
    }
}

/// Bytes in decimal with commas between them.
pub open spec fn render_bytes(d: Seq<u8>) -> Seq<char>
    decreases d.len(),
{
    if d.len() == 0 {
        seq![]
    } else {
        text::decimal(d[0] as nat) + (if d.len() == 1 {
            seq![]
        } else {
            ", "@ + render_bytes(d.skip(1))
        })
    }
}

/// Values with commas between them.
pub open spec fn render_all(items: Seq<Node>) -> Seq<char>
    decreases items,
{
    if items.len() == 0 {
        seq![]
    } else {
        render(items[0]) + (if items.len() == 1 {
            seq![]
        } else {
            ", "@ + render_all(items.skip(1))
        })
    }
}

/// Entries with commas between them.
pub open spec fn render_pairs(pairs: Seq<(Seq<char>, Node)>) -> Seq<char>
    decreases pairs,
{
    if pairs.len() == 0 {
        seq![]
    } else {
        text::quoted(pairs[0].0) + ": "@ + render(pairs[0].1) + (if pairs.len() == 1 {
            seq![]
        } else {
            ", "@ + render_pairs(pairs.skip(1))
        })
    }
}

} // verus!
