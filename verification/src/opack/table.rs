//! OPACK as a table of tags: which bytes stand for what, said apart from how they are written and
//! read.

use super::model;
use super::model::Node;
use crate::bytes;
use crate::hex;
use crate::strmap;
use crate::text;
use vstd::arithmetic::power2::*;
use vstd::prelude::*;
use vstd::utf8::*;

verus! {

// --------------------------------------------------------------------------------------------
// Writing
// --------------------------------------------------------------------------------------------

/// The bytes of a number in the widths that lengths and integers are written in.
proof fn lemma_widths(n: nat)
    ensures
        bytes::le_bytes(n, 1) == seq![(n % 256) as u8],
        bytes::le_bytes(n, 2) == seq![(n % 256) as u8, (n / 256 % 256) as u8],
        bytes::le_bytes(n, 3) == seq![
            (n % 256) as u8,
            (n / 256 % 256) as u8,
            (n / 0x1_0000 % 256) as u8,
        ],
        bytes::le_bytes(n, 4) == seq![
            (n % 256) as u8,
            (n / 256 % 256) as u8,
            (n / 0x1_0000 % 256) as u8,
            (n / 0x100_0000 % 256) as u8,
        ],
        bytes::le_bytes(n, 8) == seq![
            (n % 256) as u8,
            (n / 256 % 256) as u8,
            (n / 0x1_0000 % 256) as u8,
            (n / 0x100_0000 % 256) as u8,
            (n / 0x1_0000_0000 % 256) as u8,
            (n / 0x100_0000_0000 % 256) as u8,
            (n / 0x1_0000_0000_0000 % 256) as u8,
            (n / 0x100_0000_0000_0000 % 256) as u8,
        ],
{
    lemma_place(n, 0, 1);
    lemma_place(n, 1, 0x100);
    lemma_place(n, 2, 0x1_0000);
    lemma_place(n, 3, 0x100_0000);
    lemma_place(n, 4, 0x1_0000_0000);
    lemma_place(n, 5, 0x100_0000_0000);
    lemma_place(n, 6, 0x1_0000_0000_0000);
    lemma_place(n, 7, 0x100_0000_0000_0000);
    bytes::lemma_le_bytes_len(n, 1);
    bytes::lemma_le_bytes_len(n, 2);
    bytes::lemma_le_bytes_len(n, 3);
    bytes::lemma_le_bytes_len(n, 4);
    bytes::lemma_le_bytes_len(n, 8);
    assert(n / 1 == n);
}

/// The byte at place `k`, in every width that has one there.
proof fn lemma_place(n: nat, k: nat, p: nat)
    requires
        k < 8,
        p == if k == 0 {
            1nat
        } else if k == 1 {
            0x100
        } else if k == 2 {
            0x1_0000
        } else if k == 3 {
            0x100_0000
        } else if k == 4 {
            0x1_0000_0000
        } else if k == 5 {
            0x100_0000_0000
        } else if k == 6 {
            0x1_0000_0000_0000
        } else {
            0x100_0000_0000_0000
        },
    ensures
        forall|w: nat| k < w ==> (#[trigger] bytes::le_bytes(n, w))[k as int] == n / p % 256,
{
    reveal_with_fuel(bytes::pow256, 9);
    bytes::law_pow256(k);
    assert forall|w: nat| k < w implies (#[trigger] bytes::le_bytes(n, w))[k as int] == n / p
        % 256 by {
        bytes::law_le_digits(n, w, k);
    }
}

/// Null is 4, true is 1, false is 2, and a UUID is 5 and its bytes.
pub proof fn law_plain_tags(u: Seq<u8>)
    ensures
        model::scalar(Node::Null) == seq![0x04u8],
        model::scalar(Node::Bool(true)) == seq![0x01u8],
        model::scalar(Node::Bool(false)) == seq![0x02u8],
        model::scalar(Node::Uuid(u)) == seq![0x05u8] + u,
{
}

/// An integer below 0x28 is one byte, 8 more than the integer. A larger one is 0x30 and one byte,
/// 0x31 and two, 0x32 and four, or 0x33 and eight, the least that hold it, the low byte first.
pub proof fn law_integer_tags(i: u64)
    ensures
        i < 0x28 ==> model::scalar(Node::Int(i)) == seq![(8 + i) as u8],
        0x28 <= i <= 0xFF ==> model::scalar(Node::Int(i)) == seq![0x30u8, i as u8],
        0x100 <= i <= 0xFFFF ==> model::scalar(Node::Int(i)) == seq![
            0x31u8,
            (i % 256) as u8,
            (i / 256) as u8,
        ],
        0x1_0000 <= i <= 0xFFFF_FFFF ==> model::scalar(Node::Int(i)) == seq![
            0x32u8,
            (i % 256) as u8,
            (i / 256 % 256) as u8,
            (i / 0x1_0000 % 256) as u8,
            (i / 0x100_0000) as u8,
        ],
        0x1_0000_0000 <= i ==> model::scalar(Node::Int(i)) == seq![
            0x33u8,
            (i % 256) as u8,
            (i / 256 % 256) as u8,
            (i / 0x1_0000 % 256) as u8,
            (i / 0x100_0000 % 256) as u8,
            (i / 0x1_0000_0000 % 256) as u8,
            (i / 0x100_0000_0000 % 256) as u8,
            (i / 0x1_0000_0000_0000 % 256) as u8,
            (i / 0x100_0000_0000_0000) as u8,
        ],
{
    lemma_widths(i as nat);
}

/// A text is its UTF-8 bytes behind their number `n`: 0x40 more than `n` up to 0x20, else 0x61
/// and one byte, 0x62 and two, 0x63 and three or 0x64 and four, the low byte first.
pub proof fn law_text_tags(t: Seq<char>)
    ensures
        ({
            let b = encode_utf8(t);
            let n = b.len();
            let w = model::scalar(Node::Str(t));
            &&& n <= 0x20 ==> w == seq![(0x40 + n) as u8] + b
            &&& 0x21 <= n <= 0xFF ==> w == seq![0x61u8, n as u8] + b
            &&& 0x100 <= n <= 0xFFFF ==> w == seq![0x62u8, (n % 256) as u8, (n / 256) as u8] + b
            &&& 0x1_0000 <= n <= 0xFF_FFFF ==> w == seq![
                0x63u8,
                (n % 256) as u8,
                (n / 256 % 256) as u8,
                (n / 0x1_0000) as u8,
            ] + b
            &&& 0x100_0000 <= n ==> w == seq![
                0x64u8,
                (n % 256) as u8,
                (n / 256 % 256) as u8,
                (n / 0x1_0000 % 256) as u8,
                (n / 0x100_0000 % 256) as u8,
            ] + b
        }),
{
    lemma_widths(encode_utf8(t).len());
}

/// Data of `n` bytes is 0x70 more than `n` and the bytes, up to 0x20 of them; else 0x91 and `n` in
/// one byte, 0x92 and `n` in two or 0x93 and `n` in four, the low byte first, and the bytes.
pub proof fn law_data_tags(d: Seq<u8>)
    ensures
        ({
            let n = d.len();
            let w = model::scalar(Node::Data(d));
            &&& n <= 0x20 ==> w == seq![(0x70 + n) as u8] + d
            &&& 0x21 <= n <= 0xFF ==> w == seq![0x91u8, n as u8] + d
            &&& 0x100 <= n <= 0xFFFF ==> w == seq![0x92u8, (n % 256) as u8, (n / 256) as u8] + d
            &&& 0x1_0000 <= n ==> w == seq![
                0x93u8,
                (n % 256) as u8,
                (n / 256 % 256) as u8,
                (n / 0x1_0000 % 256) as u8,
                (n / 0x100_0000 % 256) as u8,
            ] + d
        }),
{
    lemma_widths(d.len());
}

/// A reference to the object at `i` is 0xA0 more than `i` up to 0x20; else 0xC1 and one byte, 0xC2
/// and two, 0xC3 and four or 0xC4 and eight, the low byte first.
pub proof fn law_reference_tags(i: nat)
    ensures
        i <= 0x20 ==> model::ref_bytes(i) == seq![(0xA0 + i) as u8],
        0x21 <= i <= 0xFF ==> model::ref_bytes(i) == seq![0xC1u8, i as u8],
        0x100 <= i <= 0xFFFF ==> model::ref_bytes(i) == seq![
            0xC2u8,
            (i % 256) as u8,
            (i / 256) as u8,
        ],
        0x1_0000 <= i <= 0xFFFF_FFFF ==> model::ref_bytes(i) == seq![
            0xC3u8,
            (i % 256) as u8,
            (i / 256 % 256) as u8,
            (i / 0x1_0000 % 256) as u8,
            (i / 0x100_0000) as u8,
        ],
        0x1_0000_0000 <= i ==> model::ref_bytes(i) == seq![
            0xC4u8,
            (i % 256) as u8,
            (i / 256 % 256) as u8,
            (i / 0x1_0000 % 256) as u8,
            (i / 0x100_0000 % 256) as u8,
            (i / 0x1_0000_0000 % 256) as u8,
            (i / 0x100_0000_0000 % 256) as u8,
            (i / 0x1_0000_0000_0000 % 256) as u8,
            (i / 0x100_0000_0000_0000 % 256) as u8,
        ],
{
    lemma_widths(i);
}

/// What is sent for a value is a reference to the first object of the table that is the same bytes,
/// where there is one, and the table stays. Else it is the value's full bytes, and they join the
/// table where they are more than one.
pub proof fn law_table_is_kept(v: Node, seen: Seq<Seq<u8>>)
    ensures
        ({
            let (whole, table) = model::full(v, seen);
            let sent = model::emit(v, seen);
            &&& forall|i: int|
                {
                    &&& 0 <= i < table.len()
                    &&& #[trigger] table[i] == whole
                    &&& forall|j: int| 0 <= j < i ==> table[j] != whole
                } ==> sent == (model::ref_bytes(i as nat), table)
            &&& (forall|i: int| 0 <= i < table.len() ==> table[i] != whole) ==> sent == (
                whole,
                if whole.len() > 1 {
                    table.push(whole)
                } else {
                    table
                },
            )
        }),
{
    let (whole, table) = model::full(v, seen);
    assert forall|i: int|
        {
            &&& 0 <= i < table.len()
            &&& #[trigger] table[i] == whole
            &&& forall|j: int| 0 <= j < i ==> table[j] != whole
        } implies model::emit(v, seen) == (model::ref_bytes(i as nat), table) by {
        super::laws::lemma_place_first(table, whole, i);
    }
    if forall|i: int| 0 <= i < table.len() ==> table[i] != whole {
        super::laws::lemma_place_none(table, whole);
    }
}

/// A value that holds no other is itself its full bytes. An array of `n` is 0xD0 more than `n` and
/// then its items, up to fourteen; a longer one is 0xDF, its items, and 3. A dictionary is the
/// same with 0xE0 and 0xEF.
pub proof fn law_collection_tags(v: Node, seen: Seq<Seq<u8>>)
    ensures
        match v {
            Node::Arr(items) => {
                let (parts, after) = model::emit_all(items, seen);
                &&& items.len() < 15 ==> model::full(v, seen) == (
                    seq![(0xD0 + items.len()) as u8] + parts,
                    after,
                )
                &&& items.len() >= 15 ==> model::full(v, seen) == (
                    seq![0xDFu8] + parts + seq![0x03u8],
                    after,
                )
            },
            Node::Dict(pairs) => {
                let (parts, after) = model::emit_pairs(pairs, seen);
                &&& pairs.len() < 15 ==> model::full(v, seen) == (
                    seq![(0xE0 + pairs.len()) as u8] + parts,
                    after,
                )
                &&& pairs.len() >= 15 ==> model::full(v, seen) == (
                    seq![0xEFu8] + parts + seq![0x03u8],
                    after,
                )
            },
            _ => model::full(v, seen) == (model::scalar(v), seen),
        },
{
    match v {
        Node::Arr(items) => {
            let parts = model::emit_all(items, seen).0;
            if items.len() < 15 {
                assert(model::full(v, seen).0 =~= seq![(0xD0 + items.len()) as u8] + parts);
            }
        },
        Node::Dict(pairs) => {
            let parts = model::emit_pairs(pairs, seen).0;
            if pairs.len() < 15 {
                assert(model::full(v, seen).0 =~= seq![(0xE0 + pairs.len()) as u8] + parts);
            }
        },
        _ => {},
    }
}

/// Items follow one another, each sent through the table that those in front of it left.
pub proof fn law_items_follow(items: Seq<Node>, last: Node, seen: Seq<Seq<u8>>)
    ensures
        model::emit_all(Seq::<Node>::empty(), seen) == (Seq::<u8>::empty(), seen),
        ({
            let (front, table) = model::emit_all(items, seen);
            let (more, after) = model::emit(last, table);
            model::emit_all(items.push(last), seen) == (front + more, after)
        }),
    decreases items.len(),
{
    let all = items.push(last);
    if items.len() == 0 {
        assert(all.skip(1) =~= Seq::<Node>::empty());
        let (more, after) = model::emit(last, seen);
        assert(model::emit_all(all.skip(1), after) == (Seq::<u8>::empty(), after));
        assert(model::emit_all(items, seen) == (Seq::<u8>::empty(), seen));
        assert(more + Seq::<u8>::empty() =~= more);
        assert(Seq::<u8>::empty() + more =~= more);
    } else {
        assert(all.skip(1) =~= items.skip(1).push(last));
        let (first, then) = model::emit(items[0], seen);
        law_items_follow(items.skip(1), last, then);
        let (middle, table) = model::emit_all(items.skip(1), then);
        let more = model::emit(last, table).0;
        assert(first + (middle + more) =~= (first + middle) + more);
    }
}

/// Entries follow one another, each its key as a text and then its value, each sent through the
/// table that what is in front of it left.
pub proof fn law_entries_follow(
    pairs: Seq<(Seq<char>, Node)>,
    key: Seq<char>,
    value: Node,
    seen: Seq<Seq<u8>>,
)
    ensures
        model::emit_pairs(Seq::<(Seq<char>, Node)>::empty(), seen) == (Seq::<u8>::empty(), seen),
        ({
            let (front, table) = model::emit_pairs(pairs, seen);
            let (name, mid) = model::emit(Node::Str(key), table);
            let (more, after) = model::emit(value, mid);
            model::emit_pairs(pairs.push((key, value)), seen) == (front + name + more, after)
        }),
    decreases pairs.len(),
{
    let all = pairs.push((key, value));
    let none = Seq::<(Seq<char>, Node)>::empty();
    if pairs.len() == 0 {
        assert(all.skip(1) =~= none);
        let (name, mid) = model::emit(Node::Str(key), seen);
        assert((name, mid) == model::settle(model::scalar(Node::Str(key)), seen));
        let (more, after) = model::emit(value, mid);
        assert(model::emit_pairs(none, after) == (Seq::<u8>::empty(), after));
        assert(model::emit_pairs(pairs, seen) == (Seq::<u8>::empty(), seen));
        assert(name + more + Seq::<u8>::empty() =~= Seq::<u8>::empty() + name + more);
    } else {
        assert(all.skip(1) =~= pairs.skip(1).push((key, value)));
        let (k, m) = model::settle(model::scalar(Node::Str(pairs[0].0)), seen);
        let (v, then) = model::emit(pairs[0].1, m);
        law_entries_follow(pairs.skip(1), key, value, then);
        let (middle, table) = model::emit_pairs(pairs.skip(1), then);
        let (name, mid) = model::emit(Node::Str(key), table);
        let (more, after) = model::emit(value, mid);
        assert(k + v + (middle + name + more) =~= (k + v + middle) + name + more);
    }
}

/// A value is written against an empty table, and read against an empty one; a reader takes the
/// value at the front, whatever follows.
pub proof fn law_tables_begin_empty(v: Node, data: Seq<u8>)
    ensures
        model::wire_of(v) == model::emit(v, Seq::<Seq<u8>>::empty()).0,
        model::packed(v) == model::wire_of(v),
        model::said_by(data) == model::unpacked(data),
        match model::decode(data, Seq::<Node>::empty()) {
            Ok(read) => model::unpacked(data) == Ok::<Node, Seq<char>>(read.0),
            Err(why) => model::unpacked(data) == Err::<Node, Seq<char>>(why),
        },
{
    reveal(model::wire_of);
    reveal(model::said_by);
}

// --------------------------------------------------------------------------------------------
// Reading
// --------------------------------------------------------------------------------------------

/// A reader's table after an object: the object joins it, unless it is there.
pub open spec fn table_with(seen: Seq<Node>, v: Node) -> Seq<Node> {
    if exists|i: int| 0 <= i < seen.len() && seen[i] == v {
        seen
    } else {
        seen.push(v)
    }
}

/// What is said where `n` bytes were wanted and `left` were there.
pub open spec fn short(n: nat, left: nat) -> Seq<char> {
    "opack: wanted "@ + text::decimal(n) + " bytes, "@ + text::decimal(left) + " left"@
}

/// What is said where the table has no object at `i`.
pub open spec fn unknown_place(i: nat) -> Seq<char> {
    "opack: back-reference "@ + text::decimal(i) + " past the end"@
}

/// The powers of two that count the bytes of a field.
proof fn lemma_powers()
    ensures
        pow2(0) == 1,
        pow2(1) == 2,
        pow2(2) == 4,
        pow2(3) == 8,
{
    lemma2_to64();
}

/// Without a byte there is no value. One byte alone is true (1), false (2), null (4), or the
/// integer 8 less than it (0x08 to 0x2F), and joins no table.
pub proof fn law_single_bytes_read(tag: u8, tail: Seq<u8>, seen: Seq<Node>)
    ensures
        model::decode(Seq::<u8>::empty(), seen) == Err::<(Node, Seq<u8>, Seq<Node>), Seq<char>>(
            short(1, 0),
        ),
        ({
            let read = model::decode(seq![tag] + tail, seen);
            &&& tag == 1 ==> read == Ok::<(Node, Seq<u8>, Seq<Node>), Seq<char>>(
                (Node::Bool(true), tail, seen),
            )
            &&& tag == 2 ==> read == Ok::<(Node, Seq<u8>, Seq<Node>), Seq<char>>(
                (Node::Bool(false), tail, seen),
            )
            &&& tag == 4 ==> read == Ok::<(Node, Seq<u8>, Seq<Node>), Seq<char>>(
                (Node::Null, tail, seen),
            )
            &&& 0x08 <= tag <= 0x2F ==> read == Ok::<(Node, Seq<u8>, Seq<Node>), Seq<char>>(
                (Node::Int((tag - 8) as u64), tail, seen),
            )
        }),
{
    assert((seq![tag] + tail).skip(1) =~= tail);
}

/// An integer of 2 to the power `k` bytes follows the tag 0x30 more than `k`. One of four bytes
/// follows 0x35 too, and one of eight 0x36. What comes short is refused.
pub proof fn law_integers_read(k: nat, field: Seq<u8>, tail: Seq<u8>, seen: Seq<Node>)
    requires
        k < 4,
    ensures
        ({
            let v = Node::Int(bytes::le_nat(field) as u64);
            let read = Ok::<(Node, Seq<u8>, Seq<Node>), Seq<char>>((v, tail, table_with(seen, v)));
            &&& field.len() == pow2(k) ==> {
                &&& bytes::le_nat(field) <= u64::MAX
                &&& model::decode(seq![(0x30 + k) as u8] + field + tail, seen) == read
            }
            &&& field.len() == 4 ==> model::decode(seq![0x35u8] + field + tail, seen) == read
            &&& field.len() == 8 ==> model::decode(seq![0x36u8] + field + tail, seen) == read
            &&& field.len() < pow2(k) ==> model::decode(
                seq![(0x30 + k) as u8] + field,
                seen,
            ) == Err::<(Node, Seq<u8>, Seq<Node>), Seq<char>>(short(pow2(k), field.len()))
            &&& field.len() < 4 ==> model::decode(seq![0x35u8] + field, seen) == Err::<(Node, Seq<u8>, Seq<Node>), Seq<char>>(
                short(4, field.len()),
            )
            &&& field.len() < 8 ==> model::decode(seq![0x36u8] + field, seen) == Err::<(Node, Seq<u8>, Seq<Node>), Seq<char>>(
                short(8, field.len()),
            )
        }),
{
    lemma_powers();
    bytes::lemma_le_nat_bound(field);
    bytes::lemma_pow256_values();
    let rest = field + tail;
    assert(rest.take(field.len() as int) =~= field);
    assert(rest.skip(field.len() as int) =~= tail);
    let tags = seq![(0x30 + k) as u8, 0x35u8, 0x36u8];
    assert forall|j: int| 0 <= j < 3 implies {
        &&& (seq![#[trigger] tags[j]] + field + tail).skip(1) == rest
        &&& (seq![tags[j]] + field).skip(1) == field
    } by {
        assert((seq![tags[j]] + field + tail).skip(1) =~= rest);
        assert((seq![tags[j]] + field).skip(1) =~= field);
    }
    assert(tags[0] == (0x30 + k) as u8);
    assert(tags[1] == 0x35u8);
    assert(tags[2] == 0x36u8);
}

/// A UUID is the sixteen bytes behind the tag 5. What comes short is refused.
pub proof fn law_uuids_read(u: Seq<u8>, tail: Seq<u8>, seen: Seq<Node>)
    ensures
        u.len() == 16 ==> model::decode(seq![0x05u8] + u + tail, seen) == Ok::<
            (Node, Seq<u8>, Seq<Node>),
            Seq<char>,
        >((Node::Uuid(u), tail, table_with(seen, Node::Uuid(u)))),
        u.len() < 16 ==> model::decode(seq![0x05u8] + u, seen) == Err::<(Node, Seq<u8>, Seq<Node>), Seq<char>>(short(16, u.len())),
{
    let rest = u + tail;
    assert((seq![0x05u8] + u + tail).skip(1) =~= rest);
    assert((seq![0x05u8] + u).skip(1) =~= u);
    assert(rest.take(u.len() as int) =~= u);
    assert(rest.skip(u.len() as int) =~= tail);
}

/// Behind 0x40 to 0x60 stand as many bytes of text as the tag is more than 0x40. Behind 0x61 to
/// 0x64 stands their number, in as many bytes as the tag is more than 0x60, and then the text.
/// What comes short is refused.
pub proof fn law_texts_read(k: nat, field: Seq<u8>, b: Seq<u8>, tail: Seq<u8>, seen: Seq<Node>)
    requires
        1 <= k <= 4,
        field.len() == k,
    ensures
        ({
            let v = Node::Str(text::lossy(b));
            let read = Ok::<(Node, Seq<u8>, Seq<Node>), Seq<char>>((v, tail, table_with(seen, v)));
            &&& b.len() <= 0x20 ==> model::decode(seq![(0x40 + b.len()) as u8] + b + tail, seen)
                == read
            &&& forall|n: nat|
                b.len() < n <= 0x20 ==> model::decode(
                    seq![#[trigger] (0x40 + n) as u8] + b,
                    seen,
                ) == Err::<(Node, Seq<u8>, Seq<Node>), Seq<char>>(short(n, b.len()))
            &&& bytes::le_nat(field) == b.len() && b.len() <= usize::MAX ==> model::decode(
                seq![(0x60 + k) as u8] + field + b + tail,
                seen,
            ) == read
            &&& bytes::le_nat(field) > b.len() && bytes::le_nat(field) <= usize::MAX
                ==> model::decode(seq![(0x60 + k) as u8] + field + b, seen) == Err::<(Node, Seq<u8>, Seq<Node>), Seq<char>>(
                short(bytes::le_nat(field), b.len()),
            )
            &&& forall|n: int|
                0 <= n < field.len() ==> model::decode(
                    seq![(0x60 + k) as u8] + #[trigger] field.take(n),
                    seen,
                ) == Err::<(Node, Seq<u8>, Seq<Node>), Seq<char>>(short(field.len(), n as nat))
        }),
{
    lemma_field_read((0x60 + k) as u8, field, b, tail);
    lemma_inline_read((0x40 + b.len()) as u8, b, tail);
    assert forall|n: nat| b.len() < n <= 0x20 implies model::decode(
        seq![#[trigger] (0x40 + n) as u8] + b,
        seen,
    ) == Err::<(Node, Seq<u8>, Seq<Node>), Seq<char>>(short(n, b.len())) by {
        assert((seq![(0x40 + n) as u8] + b).skip(1) =~= b);
    }
    assert forall|n: int| 0 <= n < field.len() implies model::decode(
        seq![(0x60 + k) as u8] + #[trigger] field.take(n),
        seen,
    ) == Err::<(Node, Seq<u8>, Seq<Node>), Seq<char>>(short(field.len(), n as nat)) by {
        assert((seq![(0x60 + k) as u8] + field.take(n)).skip(1) =~= field.take(n));
    }
}

/// Behind 0x70 to 0x90 stand as many bytes of data as the tag is more than 0x70. Behind 0x91 to
/// 0x94, which are 0x91 and `k`, stands their number in 2 to the power `k` bytes, and then the
/// data. What comes short is refused.
pub proof fn law_data_read(k: nat, field: Seq<u8>, d: Seq<u8>, tail: Seq<u8>, seen: Seq<Node>)
    requires
        k < 4,
        field.len() == pow2(k),
    ensures
        ({
            let v = Node::Data(d);
            let read = Ok::<(Node, Seq<u8>, Seq<Node>), Seq<char>>((v, tail, table_with(seen, v)));
            &&& d.len() <= 0x20 ==> model::decode(seq![(0x70 + d.len()) as u8] + d + tail, seen)
                == read
            &&& forall|n: nat|
                d.len() < n <= 0x20 ==> model::decode(
                    seq![#[trigger] (0x70 + n) as u8] + d,
                    seen,
                ) == Err::<(Node, Seq<u8>, Seq<Node>), Seq<char>>(short(n, d.len()))
            &&& bytes::le_nat(field) == d.len() && d.len() <= usize::MAX ==> model::decode(
                seq![(0x91 + k) as u8] + field + d + tail,
                seen,
            ) == read
            &&& bytes::le_nat(field) > d.len() && bytes::le_nat(field) <= usize::MAX
                ==> model::decode(seq![(0x91 + k) as u8] + field + d, seen) == Err::<(Node, Seq<u8>, Seq<Node>), Seq<char>>(
                short(bytes::le_nat(field), d.len()),
            )
            &&& forall|n: int|
                0 <= n < field.len() ==> model::decode(
                    seq![(0x91 + k) as u8] + #[trigger] field.take(n),
                    seen,
                ) == Err::<(Node, Seq<u8>, Seq<Node>), Seq<char>>(short(field.len(), n as nat))
        }),
{
    lemma_powers();
    lemma_field_read((0x91 + k) as u8, field, d, tail);
    lemma_inline_read((0x70 + d.len()) as u8, d, tail);
    assert forall|n: nat| d.len() < n <= 0x20 implies model::decode(
        seq![#[trigger] (0x70 + n) as u8] + d,
        seen,
    ) == Err::<(Node, Seq<u8>, Seq<Node>), Seq<char>>(short(n, d.len())) by {
        assert((seq![(0x70 + n) as u8] + d).skip(1) =~= d);
    }
    assert forall|n: int| 0 <= n < field.len() implies model::decode(
        seq![(0x91 + k) as u8] + #[trigger] field.take(n),
        seen,
    ) == Err::<(Node, Seq<u8>, Seq<Node>), Seq<char>>(short(field.len(), n as nat)) by {
        assert((seq![(0x91 + k) as u8] + field.take(n)).skip(1) =~= field.take(n));
    }
}

/// Where the parts of a sized object stand.
proof fn lemma_inline_read(tag: u8, b: Seq<u8>, tail: Seq<u8>)
    ensures
        (seq![tag] + b + tail).skip(1) == b + tail,
        (b + tail).take(b.len() as int) == b,
        (b + tail).skip(b.len() as int) == tail,
{
    assert((seq![tag] + b + tail).skip(1) =~= b + tail);
    assert((b + tail).take(b.len() as int) =~= b);
    assert((b + tail).skip(b.len() as int) =~= tail);
}

/// Where the parts of a measured object stand, and that the machine's word holds its length.
proof fn lemma_field_read(tag: u8, field: Seq<u8>, b: Seq<u8>, tail: Seq<u8>)
    ensures
        ({
            let rest = field + b + tail;
            let w = field.len() as int;
            &&& (seq![tag] + field + b + tail).skip(1) == rest
            &&& rest.take(w) == field
            &&& rest.skip(w) == b + tail
            &&& (b + tail).take(b.len() as int) == b
            &&& (b + tail).skip(b.len() as int) == tail
            &&& (seq![tag] + field + b).skip(1) == field + b
            &&& (field + b).take(w) == field
            &&& (field + b).skip(w) == b
        }),
        bytes::le_nat(field) <= usize::MAX ==> model::word(field) == bytes::le_nat(field),
{
    let rest = field + b + tail;
    let w = field.len() as int;
    assert((seq![tag] + field + b + tail).skip(1) =~= rest);
    assert(rest.take(w) =~= field);
    assert(rest.skip(w) =~= b + tail);
    assert((b + tail).take(b.len() as int) =~= b);
    assert((b + tail).skip(b.len() as int) =~= tail);
    assert((seq![tag] + field + b).skip(1) =~= field + b);
    assert((field + b).take(w) =~= field);
    assert((field + b).skip(w) =~= b);
}

/// The tags 0xA0 to 0xC0 mean the object at the place by which they are more than 0xA0. Behind
/// 0xC1 to 0xC4, which are 0xC1 and `k`, stands the place in 2 to the power `k` bytes. Nothing joins
/// the table, and a place past its end is refused.
pub proof fn law_references_read(i: nat, k: nat, field: Seq<u8>, tail: Seq<u8>, seen: Seq<Node>)
    requires
        k < 4,
        field.len() == pow2(k),
        bytes::le_nat(field) == i,
        i <= usize::MAX,
    ensures
        ({
            let read = Ok::<(Node, Seq<u8>, Seq<Node>), Seq<char>>((seen[i as int], tail, seen));
            let near = model::decode(seq![(0xA0 + i) as u8] + tail, seen);
            let far = model::decode(seq![(0xC1 + k) as u8] + field + tail, seen);
            &&& i < seen.len() ==> far == read && (i <= 0x20 ==> near == read)
            &&& i >= seen.len() ==> far == Err::<(Node, Seq<u8>, Seq<Node>), Seq<char>>(unknown_place(i)) && (i <= 0x20 ==> near == far)
        }),
        forall|n: int|
            0 <= n < pow2(k) ==> model::decode(
                seq![(0xC1 + k) as u8] + #[trigger] field.take(n),
                seen,
            ) == Err::<(Node, Seq<u8>, Seq<Node>), Seq<char>>(short(pow2(k), n as nat)),
{
    lemma_powers();
    lemma_field_read((0xC1 + k) as u8, field, Seq::<u8>::empty(), tail);
    assert((seq![(0xA0 + i) as u8] + tail).skip(1) =~= tail);
    assert(seq![(0xC1 + k) as u8] + field + Seq::<u8>::empty() + tail =~= seq![(0xC1 + k) as u8]
        + field + tail);
    assert(field + Seq::<u8>::empty() + tail =~= field + tail);
    assert(Seq::<u8>::empty() + tail =~= tail);
    assert forall|n: int| 0 <= n < pow2(k) implies model::decode(
        seq![(0xC1 + k) as u8] + #[trigger] field.take(n),
        seen,
    ) == Err::<(Node, Seq<u8>, Seq<Node>), Seq<char>>(short(pow2(k), n as nat)) by {
        assert((seq![(0xC1 + k) as u8] + field.take(n)).skip(1) =~= field.take(n));
    }
}

/// No other byte begins a value. Which one it was is said with two digits.
pub proof fn law_other_tags_are_refused(tag: u8, tail: Seq<u8>, seen: Seq<Node>)
    requires
        tag == 0 || tag == 3 || tag == 6 || tag == 7 || tag == 0x34 || 0x37 <= tag <= 0x3F || 0x65
            <= tag <= 0x6F || 0x95 <= tag <= 0x9F || 0xC5 <= tag <= 0xCF || 0xF0 <= tag,
    ensures
        model::decode(seq![tag] + tail, seen) == Err::<(Node, Seq<u8>, Seq<Node>), Seq<char>>(
            "opack: unknown tag 0x"@ + hex::hex_of(seq![tag]),
        ),
{
    assert(hex::hex_of(seq![tag]) =~= hex::hex_pair(tag)) by {
        reveal_with_fuel(hex::hex_of, 2);
        assert(seq![tag].drop_last() =~= Seq::<u8>::empty());
        assert(hex::hex_of(Seq::<u8>::empty()) =~= Seq::<char>::empty());
    }
}

/// A reader takes at least one byte for a value, and reads on from there.
proof fn lemma_shrinks(data: Seq<u8>, seen: Seq<Node>)
    ensures
        model::decode(data, seen) is Ok ==> (model::decode(data, seen)->Ok_0).1.len() < data.len(),
    decreases data.len(), 0int,
{
    if data.len() > 0 {
        let tag = data[0];
        let rest = data.skip(1);
        if 0xD0 <= tag <= 0xDF {
            if tag == 0xDF {
                lemma_endless_shrinks(rest, seen);
            } else {
                lemma_counted_shrinks((tag - 0xD0) as nat, rest, seen);
            }
        } else if 0xE0 <= tag <= 0xEF {
            if tag == 0xEF {
                lemma_endless_pairs_shrinks(rest, seen);
            } else {
                lemma_counted_pairs_shrinks((tag - 0xE0) as nat, rest, seen);
            }
        }
    }
}

proof fn lemma_counted_shrinks(n: nat, data: Seq<u8>, seen: Seq<Node>)
    ensures
        model::decode_counted(n, data, seen) matches Ok(r) ==> r.1.len() <= data.len(),
    decreases data.len(), 1int,
{
    if n > 0 {
        if let Ok((v, rest, then)) = model::decode(data, seen) {
            if rest.len() < data.len() {
                lemma_counted_shrinks((n - 1) as nat, rest, then);
            }
        }
    }
}

proof fn lemma_endless_shrinks(data: Seq<u8>, seen: Seq<Node>)
    ensures
        model::decode_endless(data, seen) matches Ok(r) ==> r.1.len() <= data.len(),
    decreases data.len(), 1int,
{
    if data.len() > 0 && data[0] != 0x03 {
        if let Ok((v, rest, then)) = model::decode(data, seen) {
            if rest.len() < data.len() {
                lemma_endless_shrinks(rest, then);
            }
        }
    }
}

proof fn lemma_counted_pairs_shrinks(n: nat, data: Seq<u8>, seen: Seq<Node>)
    ensures
        model::decode_counted_pairs(n, data, seen) matches Ok(r) ==> r.1.len() <= data.len(),
    decreases data.len(), 2int,
{
    if n > 0 {
        if let Ok((p, rest, then)) = model::decode_pair(data, seen) {
            if rest.len() < data.len() {
                lemma_counted_pairs_shrinks((n - 1) as nat, rest, then);
            }
        }
    }
}

proof fn lemma_endless_pairs_shrinks(data: Seq<u8>, seen: Seq<Node>)
    ensures
        model::decode_endless_pairs(data, seen) matches Ok(r) ==> r.1.len() <= data.len(),
    decreases data.len(), 2int,
{
    if data.len() > 0 && data[0] != 0x03 {
        if let Ok((p, rest, then)) = model::decode_pair(data, seen) {
            if rest.len() < data.len() {
                lemma_endless_pairs_shrinks(rest, then);
            }
        }
    }
}

/// What is left behind a value is shorter than what the value was read from.
pub proof fn law_reading_moves_on(data: Seq<u8>, seen: Seq<Node>)
    ensures
        model::decode(data, seen) is Ok ==> (model::decode(data, seen)->Ok_0).1.len() < data.len(),
{
    lemma_shrinks(data, seen);
}

/// An array whose tag is 0xD0 more than its number of items is those items one after another:
/// with one item more in front, it is that item and then the array. Where the item in front is
/// refused, so is the array.
pub proof fn law_counted_arrays_read(n: nat, data: Seq<u8>, seen: Seq<Node>)
    requires
        n < 14,
    ensures
        model::decode(seq![0xD0u8] + data, seen) == Ok::<(Node, Seq<u8>, Seq<Node>), Seq<char>>(
            (Node::Arr(Seq::<Node>::empty()), data, seen),
        ),
        match model::decode(data, seen) {
            Err(why) => model::decode(seq![(0xD1 + n) as u8] + data, seen) == Err::<
                (Node, Seq<u8>, Seq<Node>),
                Seq<char>,
            >(why),
            Ok((first, rest, then)) => match model::decode(seq![(0xD0 + n) as u8] + rest, then) {
                Err(why) => model::decode(seq![(0xD1 + n) as u8] + data, seen) == Err::<
                    (Node, Seq<u8>, Seq<Node>),
                    Seq<char>,
                >(why),
                Ok((others, left, table)) => others is Arr && model::decode(
                    seq![(0xD1 + n) as u8] + data,
                    seen,
                ) == Ok::<(Node, Seq<u8>, Seq<Node>), Seq<char>>(
                    (Node::Arr(seq![first] + others->Arr_0), left, table),
                ),
            },
        },
{
    assert((seq![0xD0u8] + data).skip(1) =~= data);
    assert((seq![(0xD1 + n) as u8] + data).skip(1) =~= data);
    lemma_shrinks(data, seen);
    if let Ok((first, rest, then)) = model::decode(data, seen) {
        assert((seq![(0xD0 + n) as u8] + rest).skip(1) =~= rest);
        assert(model::decode_counted(n + 1, data, seen) == model::prepend(
            first,
            model::decode_counted(n, rest, then),
        ));
    }
}

/// An array whose tag is 0xDF is the items up to a 3 that stands where an item would begin.
pub proof fn law_endless_arrays_read(data: Seq<u8>, seen: Seq<Node>)
    ensures
        model::decode(seq![0xDFu8], seen) == Err::<(Node, Seq<u8>, Seq<Node>), Seq<char>>(short(1, 0)),
        model::decode(seq![0xDFu8, 0x03u8] + data, seen) == Ok::<
            (Node, Seq<u8>, Seq<Node>),
            Seq<char>,
        >((Node::Arr(Seq::<Node>::empty()), data, seen)),
        data.len() > 0 && data[0] != 0x03 ==> match model::decode(data, seen) {
            Err(why) => model::decode(seq![0xDFu8] + data, seen) == Err::<
                (Node, Seq<u8>, Seq<Node>),
                Seq<char>,
            >(why),
            Ok((first, rest, then)) => match model::decode(seq![0xDFu8] + rest, then) {
                Err(why) => model::decode(seq![0xDFu8] + data, seen) == Err::<
                    (Node, Seq<u8>, Seq<Node>),
                    Seq<char>,
                >(why),
                Ok((others, left, table)) => others is Arr && model::decode(
                    seq![0xDFu8] + data,
                    seen,
                ) == Ok::<(Node, Seq<u8>, Seq<Node>), Seq<char>>(
                    (Node::Arr(seq![first] + others->Arr_0), left, table),
                ),
            },
        },
{
    assert(seq![0xDFu8].skip(1) =~= Seq::<u8>::empty());
    assert((seq![0xDFu8, 0x03u8] + data).skip(1) =~= seq![0x03u8] + data);
    assert((seq![0x03u8] + data).skip(1) =~= data);
    assert((seq![0xDFu8] + data).skip(1) =~= data);
    assert(model::decode_endless(seq![0x03u8] + data, seen) == Ok::<
        (Seq<Node>, Seq<u8>, Seq<Node>),
        Seq<char>,
    >((Seq::<Node>::empty(), data, seen)));
    assert(model::decode_endless(Seq::<u8>::empty(), seen) == Err::<
        (Seq<Node>, Seq<u8>, Seq<Node>),
        Seq<char>,
    >(short(1, 0)));
    lemma_shrinks(data, seen);
    if data.len() > 0 && data[0] != 0x03 {
        if let Ok((first, rest, then)) = model::decode(data, seen) {
            assert((seq![0xDFu8] + rest).skip(1) =~= rest);
            assert(model::decode_endless(data, seen) == model::prepend(
                first,
                model::decode_endless(rest, then),
            ));
        }
    }
}

/// One more pair in front counts where none of the others has its key.
proof fn lemma_gather_front(key: Seq<char>, v: Node, pairs: Seq<(Seq<char>, Node)>)
    ensures
        strmap::gather(seq![(key, v)] + pairs) == entered(key, v, strmap::gather(pairs)),
    decreases pairs.len(),
{
    let all = seq![(key, v)] + pairs;
    let none = Seq::<(Seq<char>, Node)>::empty();
    if pairs.len() == 0 {
        assert(all.drop_last() =~= none);
        assert(strmap::gather(none) =~= none);
        assert(pairs =~= none);
    } else {
        let front = pairs.drop_last();
        let last = pairs.last();
        assert(all.drop_last() =~= seq![(key, v)] + front);
        lemma_gather_front(key, v, front);
        let g = strmap::gather(front);
        strmap::lemma_gather_ascending(front);
        strmap::law_lookup_after_put(g, last.0, last.1, key);
        if strmap::lookup(g, key) is None {
            if last.0 == key {
                strmap::lemma_put_over(g, key, v, last.1);
            } else {
                strmap::lemma_put_swaps(g, key, v, last.0, last.1);
            }
        }
    }
}

/// The entries with one more that was read in front of them: a later one with its key stands.
pub open spec fn entered(
    key: Seq<char>,
    v: Node,
    others: Seq<(Seq<char>, Node)>,
) -> Seq<(Seq<char>, Node)> {
    if strmap::lookup(others, key) is Some {
        others
    } else {
        strmap::put(others, key, v)
    }
}

/// The name under which an entry stands: a text as it is, and another value as it is written out.
pub proof fn law_keys_are_texts(t: Seq<char>, k: Node)
    ensures
        model::key_text(Node::Str(t)) == t,
        k !is Str ==> model::key_text(k) == model::render(k),
{
}

/// A dictionary whose tag is 0xE0 more than its number of entries is those entries one after
/// another, a key and then a value each: with one more in front, it is the others and that one,
/// which counts only where none of the others has its key.
pub proof fn law_counted_dictionaries_read(n: nat, data: Seq<u8>, seen: Seq<Node>)
    requires
        n < 14,
    ensures
        model::decode(seq![0xE0u8] + data, seen) == Ok::<(Node, Seq<u8>, Seq<Node>), Seq<char>>(
            (Node::Dict(Seq::<(Seq<char>, Node)>::empty()), data, seen),
        ),
        match read_entry(data, seen) {
            Err(why) => model::decode(seq![(0xE1 + n) as u8] + data, seen) == Err::<
                (Node, Seq<u8>, Seq<Node>),
                Seq<char>,
            >(why),
            Ok(((key, v), rest, then)) => match model::decode(
                seq![(0xE0 + n) as u8] + rest,
                then,
            ) {
                Err(why) => model::decode(seq![(0xE1 + n) as u8] + data, seen) == Err::<
                    (Node, Seq<u8>, Seq<Node>),
                    Seq<char>,
                >(why),
                Ok((others, left, table)) => others is Dict && model::decode(
                    seq![(0xE1 + n) as u8] + data,
                    seen,
                ) == Ok::<(Node, Seq<u8>, Seq<Node>), Seq<char>>(
                    (Node::Dict(entered(key, v, others->Dict_0)), left, table),
                ),
            },
        },
{
    assert((seq![0xE0u8] + data).skip(1) =~= data);
    assert((seq![(0xE1 + n) as u8] + data).skip(1) =~= data);
    assert(strmap::gather(Seq::<(Seq<char>, Node)>::empty()) =~= Seq::<
        (Seq<char>, Node),
    >::empty());
    lemma_entry_read(data, seen);
    if let Ok((pair, rest, then)) = read_entry(data, seen) {
        assert((seq![(0xE0 + n) as u8] + rest).skip(1) =~= rest);
        assert(model::decode_counted_pairs(n + 1, data, seen) == model::prepend(
            pair,
            model::decode_counted_pairs(n, rest, then),
        ));
        if let Ok((pairs, left, table)) = model::decode_counted_pairs(n, rest, then) {
            lemma_gather_front(pair.0, pair.1, pairs);
        }
    }
}

/// A dictionary whose tag is 0xEF is the entries up to a 3 that stands where a key would begin.
pub proof fn law_endless_dictionaries_read(data: Seq<u8>, seen: Seq<Node>)
    ensures
        model::decode(seq![0xEFu8], seen) == Err::<(Node, Seq<u8>, Seq<Node>), Seq<char>>(short(1, 0)),
        model::decode(seq![0xEFu8, 0x03u8] + data, seen) == Ok::<
            (Node, Seq<u8>, Seq<Node>),
            Seq<char>,
        >((Node::Dict(Seq::<(Seq<char>, Node)>::empty()), data, seen)),
        data.len() > 0 && data[0] != 0x03 ==> match read_entry(data, seen) {
            Err(why) => model::decode(seq![0xEFu8] + data, seen) == Err::<
                (Node, Seq<u8>, Seq<Node>),
                Seq<char>,
            >(why),
            Ok(((key, v), rest, then)) => match model::decode(seq![0xEFu8] + rest, then) {
                Err(why) => model::decode(seq![0xEFu8] + data, seen) == Err::<
                    (Node, Seq<u8>, Seq<Node>),
                    Seq<char>,
                >(why),
                Ok((others, left, table)) => others is Dict && model::decode(
                    seq![0xEFu8] + data,
                    seen,
                ) == Ok::<(Node, Seq<u8>, Seq<Node>), Seq<char>>(
                    (Node::Dict(entered(key, v, others->Dict_0)), left, table),
                ),
            },
        },
{
    let none = Seq::<(Seq<char>, Node)>::empty();
    assert(seq![0xEFu8].skip(1) =~= Seq::<u8>::empty());
    assert((seq![0xEFu8, 0x03u8] + data).skip(1) =~= seq![0x03u8] + data);
    assert((seq![0x03u8] + data).skip(1) =~= data);
    assert((seq![0xEFu8] + data).skip(1) =~= data);
    assert(strmap::gather(none) =~= none);
    assert(model::decode_endless_pairs(seq![0x03u8] + data, seen) == Ok::<
        (Seq<(Seq<char>, Node)>, Seq<u8>, Seq<Node>),
        Seq<char>,
    >((none, data, seen)));
    assert(model::decode_endless_pairs(Seq::<u8>::empty(), seen) == Err::<
        (Seq<(Seq<char>, Node)>, Seq<u8>, Seq<Node>),
        Seq<char>,
    >(short(1, 0)));
    lemma_entry_read(data, seen);
    if data.len() > 0 && data[0] != 0x03 {
        if let Ok((pair, rest, then)) = read_entry(data, seen) {
            assert((seq![0xEFu8] + rest).skip(1) =~= rest);
            assert(model::decode_endless_pairs(data, seen) == model::prepend(
                pair,
                model::decode_endless_pairs(rest, then),
            ));
            if let Ok((pairs, left, table)) = model::decode_endless_pairs(rest, then) {
                lemma_gather_front(pair.0, pair.1, pairs);
            }
        }
    }
}

/// A key and a value, one after the other.
pub open spec fn read_entry(data: Seq<u8>, seen: Seq<Node>) -> model::Parsed<(Seq<char>, Node)> {
    match model::decode(data, seen) {
        Err(why) => Err(why),
        Ok((k, rest, then)) => match model::decode(rest, then) {
            Err(why) => Err(why),
            Ok((v, left, table)) => Ok(((model::key_text(k), v), left, table)),
        },
    }
}

proof fn lemma_entry_read(data: Seq<u8>, seen: Seq<Node>)
    ensures
        model::decode_pair(data, seen) == read_entry(data, seen),
        read_entry(data, seen) matches Ok(r) ==> r.1.len() < data.len(),
{
    lemma_shrinks(data, seen);
    if let Ok((k, rest, then)) = model::decode(data, seen) {
        lemma_shrinks(rest, then);
    }
}

// --------------------------------------------------------------------------------------------
// Values
// --------------------------------------------------------------------------------------------

/// A value is one that can be held exactly where each UUID in it has sixteen bytes, and the keys of
/// each dictionary in it stand in order.
pub proof fn law_valid_values(u: Seq<u8>, items: Seq<Node>, pairs: Seq<(Seq<char>, Node)>, v: Node)
    ensures
        model::wf(Node::Uuid(u)) <==> u.len() == 16,
        model::wf(Node::Arr(items)) <==> forall|i: int|
            0 <= i < items.len() ==> model::wf(#[trigger] items[i]),
        model::wf(Node::Dict(pairs)) <==> strmap::ascending(pairs) && forall|i: int|
            0 <= i < pairs.len() ==> model::wf((#[trigger] pairs[i]).1),
        !(v is Uuid) && !(v is Arr) && !(v is Dict) ==> model::wf(v),
{
    let arr = Node::Arr(items);
    let dict = Node::Dict(pairs);
    if model::wf(arr) {
        assert forall|i: int| 0 <= i < items.len() implies model::wf(#[trigger] items[i]) by {
            assert(model::wf(arr->Arr_0[i]));
        }
    }
    if forall|i: int| 0 <= i < items.len() ==> model::wf(#[trigger] items[i]) {
        assert(model::wf(arr));
    }
    if model::wf(dict) {
        assert forall|i: int| 0 <= i < pairs.len() implies model::wf((#[trigger] pairs[i]).1) by {
            assert(model::wf(dict->Dict_0[i].1));
        }
    }
}

/// A dictionary of pairs is those pairs gathered: under a key stands the last pair's value.
pub proof fn law_dictionary_of_pairs(pairs: Seq<(Seq<char>, Node)>)
    ensures
        super::dict_of(pairs) == Node::Dict(strmap::gather(pairs)),
{
}

/// A value written out for a reader says its kind, and what it holds in brackets.
pub proof fn law_written_out(v: Node)
    ensures
        match v {
            Node::Null => model::render(v) == "Null"@,
            Node::Bool(b) => b ==> model::render(v) == "Bool(true)"@,
            Node::Int(i) => model::render(v) == "Int("@ + text::decimal(i as nat) + ")"@,
            Node::Str(t) => model::render(v) == "Str("@ + text::quoted(t) + ")"@,
            Node::Data(d) => model::render(v) == "Data(["@ + model::render_bytes(d) + "])"@,
            Node::Uuid(u) => model::render(v) == "Uuid(["@ + model::render_bytes(u) + "])"@,
            Node::Arr(items) => model::render(v) == "Arr(["@ + model::render_all(items) + "])"@,
            Node::Dict(pairs) => model::render(v) == "Dict({"@ + model::render_pairs(pairs)
                + "})"@,
        },
        model::render(Node::Bool(false)) == "Bool(false)"@,
{
}

/// Bytes, values and entries that are written out follow one another with a comma and a space
/// between each two; an entry is its key, quoted, a colon and a space, and its value.
pub proof fn law_lists_written_out(
    d: Seq<u8>,
    b: u8,
    items: Seq<Node>,
    v: Node,
    pairs: Seq<(Seq<char>, Node)>,
    key: Seq<char>,
)
    ensures
        model::render_bytes(seq![b]) == text::decimal(b as nat),
        d.len() > 0 ==> model::render_bytes(d.push(b)) == model::render_bytes(d) + ", "@
            + text::decimal(b as nat),
        model::render_all(seq![v]) == model::render(v),
        items.len() > 0 ==> model::render_all(items.push(v)) == model::render_all(items) + ", "@
            + model::render(v),
        model::render_pairs(seq![(key, v)]) == text::quoted(key) + ": "@ + model::render(v),
        pairs.len() > 0 ==> model::render_pairs(pairs.push((key, v))) == model::render_pairs(pairs)
            + ", "@ + text::quoted(key) + ": "@ + model::render(v),
        model::render_bytes(Seq::<u8>::empty()).len() == 0,
        model::render_all(Seq::<Node>::empty()).len() == 0,
        model::render_pairs(Seq::<(Seq<char>, Node)>::empty()).len() == 0,
{
    lemma_bytes_written(d, b);
    lemma_items_written(items, v);
    lemma_pairs_written(pairs, key, v);
    let none = Seq::<char>::empty();
    assert(text::decimal(b as nat) + none =~= text::decimal(b as nat));
    assert(model::render(v) + none =~= model::render(v));
    let entry = text::quoted(key) + ": "@ + model::render(v);
    assert(entry + none =~= entry);
    assert(seq![b][0] == b && seq![v][0] == v && seq![(key, v)][0] == (key, v));
    assert(model::render_bytes(seq![b]) == text::decimal(b as nat) + none);
    assert(model::render_all(seq![v]) == model::render(v) + none);
    assert(model::render_pairs(seq![(key, v)]) == entry + none);
}

proof fn lemma_bytes_written(d: Seq<u8>, b: u8)
    ensures
        d.len() > 0 ==> model::render_bytes(d.push(b)) == model::render_bytes(d) + ", "@
            + text::decimal(b as nat),
    decreases d.len(),
{
    if d.len() > 0 {
        let all = d.push(b);
        let rest = all.skip(1);
        assert(rest =~= d.skip(1).push(b));
        let one = text::decimal(d[0] as nat);
        let last = text::decimal(b as nat);
        let none = Seq::<char>::empty();
        if d.len() == 1 {
            assert(rest =~= seq![b]);
            assert(model::render_bytes(rest) == last + none);
            assert(last + none =~= last);
            assert(one + none =~= one);
            assert(one + (", "@ + last) =~= one + ", "@ + last);
        } else {
            lemma_bytes_written(d.skip(1), b);
            let middle = model::render_bytes(d.skip(1));
            assert(one + (", "@ + (middle + ", "@ + last)) =~= one + (", "@ + middle) + ", "@
                + last);
        }
    }
}

proof fn lemma_items_written(items: Seq<Node>, v: Node)
    ensures
        items.len() > 0 ==> model::render_all(items.push(v)) == model::render_all(items) + ", "@
            + model::render(v),
    decreases items.len(),
{
    if items.len() > 0 {
        let all = items.push(v);
        let rest = all.skip(1);
        assert(rest =~= items.skip(1).push(v));
        let one = model::render(items[0]);
        let last = model::render(v);
        let none = Seq::<char>::empty();
        if items.len() == 1 {
            assert(rest =~= seq![v]);
            assert(model::render_all(rest) == last + none);
            assert(last + none =~= last);
            assert(one + none =~= one);
            assert(one + (", "@ + last) =~= one + ", "@ + last);
        } else {
            lemma_items_written(items.skip(1), v);
            let middle = model::render_all(items.skip(1));
            assert(one + (", "@ + (middle + ", "@ + last)) =~= one + (", "@ + middle) + ", "@
                + last);
        }
    }
}

proof fn lemma_pairs_written(pairs: Seq<(Seq<char>, Node)>, key: Seq<char>, v: Node)
    ensures
        pairs.len() > 0 ==> model::render_pairs(pairs.push((key, v))) == model::render_pairs(pairs)
            + ", "@ + text::quoted(key) + ": "@ + model::render(v),
    decreases pairs.len(),
{
    if pairs.len() > 0 {
        let all = pairs.push((key, v));
        let rest = all.skip(1);
        assert(rest =~= pairs.skip(1).push((key, v)));
        let one = text::quoted(pairs[0].0) + ": "@ + model::render(pairs[0].1);
        let last = text::quoted(key) + ": "@ + model::render(v);
        let none = Seq::<char>::empty();
        if pairs.len() == 1 {
            assert(rest =~= seq![(key, v)]);
            assert(model::render_pairs(rest) == last + none);
            assert(last + none =~= last);
            assert(one + none =~= one);
            assert(one + (", "@ + last) =~= one + ", "@ + text::quoted(key) + ": "@ + model::render(
                v,
            ));
        } else {
            lemma_pairs_written(pairs.skip(1), key, v);
            let middle = model::render_pairs(pairs.skip(1));
            assert(one + (", "@ + (middle + ", "@ + text::quoted(key) + ": "@ + model::render(v)))
                =~= one + (", "@ + middle) + ", "@ + text::quoted(key) + ": "@ + model::render(v));
        }
    }
}

} // verus!
