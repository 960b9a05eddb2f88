//! What holds of OPACK as a whole: what was written is read back, and a repeat costs an index.

use super::model;
use super::model::Node;
use crate::bytes;
use crate::strmap;
use crate::text;
use vstd::prelude::*;
use vstd::utf8::*;

verus! {

// --------------------------------------------------------------------------------------------
// What the reader hears
// --------------------------------------------------------------------------------------------

/// Text and data whose length a head can say: less than four gibibytes.
pub open spec fn sayable(v: Node) -> bool {
    match v {
        Node::Str(t) => encode_utf8(t).len() <= 0xFFFF_FFFF,
        Node::Data(d) => d.len() <= 0xFFFF_FFFF,
        _ => true,
    }
}

/// A value of which every length can be said.
pub open spec fn all_sayable(v: Node) -> bool
    decreases v,
{
    match v {
        Node::Arr(items) => forall|i: int|
            0 <= i < items.len() ==> all_sayable(#[trigger] items[i]),
        Node::Dict(pairs) => forall|i: int|
            0 <= i < pairs.len() ==> sayable(Node::Str((#[trigger] pairs[i]).0)) && all_sayable(
                pairs[i].1,
            ),
        _ => sayable(v),
    }
}

/// What a reader makes of something that was sent: a value and its table then, or the place past
/// the end of its table that a reference named.
pub type Heard<T> = Result<(T, Seq<Node>), nat>;

/// An index as the machine's word holds it.
pub open spec fn word_of(i: nat) -> nat {
    ((i % 0x1_0000_0000_0000_0000) as u64) as usize as nat
}

/// A reference to `i`: what stands there in the reader's own table.
pub open spec fn hear_reference(i: nat, read: Seq<Node>) -> Heard<Node> {
    if word_of(i) < read.len() {
        Ok((read[word_of(i) as int], read))
    } else {
        Err(word_of(i))
    }
}

/// The reader's table after a value that holds no other was sent in full.
pub open spec fn after_scalar(v: Node, read: Seq<Node>) -> Seq<Node> {
    match v {
        Node::Null => read,
        Node::Bool(_) => read,
        Node::Int(i) => if i < 0x28 {
            read
        } else {
            model::remember(read, v)
        },
        _ => model::remember(read, v),
    }
}

/// A value that holds no other, where the writer's table was `written` and the reader's `read`.
pub open spec fn hear_scalar(v: Node, written: Seq<Seq<u8>>, read: Seq<Node>) -> Heard<Node> {
    match model::place(written, model::scalar(v)) {
        Some(i) => hear_reference(i, read),
        None => Ok((v, after_scalar(v, read))),
    }
}

/// What the reader makes of `v`, where the writer's table was `written` and its own `read`.
///
/// The tables differ: the writer's takes in collections and leaves out empty text and data, the
/// reader's does the reverse. So a reference may name one thing to the writer and another to the
/// reader.
pub open spec fn hear(v: Node, written: Seq<Seq<u8>>, read: Seq<Node>) -> Heard<Node>
    decreases v, 1int,
{
    if v.is_collection() {
        let (whole, after) = model::full(v, written);
        match model::place(after, whole) {
            Some(i) => hear_reference(i, read),
            None => match v {
                Node::Arr(items) => match hear_all(items, written, read) {
                    Ok((heard, then)) => Ok((Node::Arr(heard), then)),
                    Err(i) => Err(i),
                },
                Node::Dict(pairs) => match hear_pairs(pairs, written, read) {
                    Ok((heard, then)) => Ok((Node::Dict(strmap::gather(heard)), then)),
                    Err(i) => Err(i),
                },
                _ => Err(0),
            },
        }
    } else {
        hear_scalar(v, written, read)
    }
}

/// What the reader makes of `items`.
pub open spec fn hear_all(items: Seq<Node>, written: Seq<Seq<u8>>, read: Seq<Node>) -> Heard<
    Seq<Node>,
>
    decreases items, 0int,
{
    if items.len() == 0 {
        Ok((seq![], read))
    } else {
        match hear(items[0], written, read) {
            Err(i) => Err(i),
            Ok((first, then)) => match hear_all(
                items.skip(1),
                model::emit(items[0], written).1,
                then,
            ) {
                Err(i) => Err(i),
                Ok((rest, last)) => Ok((seq![first] + rest, last)),
            },
        }
    }
}

/// What the reader makes of the entries of a dictionary.
pub open spec fn hear_pairs(
    pairs: Seq<(Seq<char>, Node)>,
    written: Seq<Seq<u8>>,
    read: Seq<Node>,
) -> Heard<Seq<(Seq<char>, Node)>>
    decreases pairs, 0int,
{
    if pairs.len() == 0 {
        Ok((seq![], read))
    } else {
        let name = Node::Str(pairs[0].0);
        let mid = model::settle(model::scalar(name), written).1;
        match hear_scalar(name, written, read) {
            Err(i) => Err(i),
            Ok((key, then)) => match hear(pairs[0].1, mid, then) {
                Err(i) => Err(i),
                Ok((value, last)) => match hear_pairs(
                    pairs.skip(1),
                    model::emit(pairs[0].1, mid).1,
                    last,
                ) {
                    Err(i) => Err(i),
                    Ok((rest, end)) => Ok((seq![(model::key_text(key), value)] + rest, end)),
                },
            },
        }
    }
}

/// What is heard, as a reader says it, with `tail` left over.
pub open spec fn said<T>(heard: Heard<T>, tail: Seq<u8>) -> model::Parsed<T> {
    match heard {
        Ok((v, then)) => Ok((v, tail, then)),
        Err(i) => Err(model::past_the_end(i)),
    }
}

/// Every reference that is sent for `v` means the same to its reader, or at least comes to the
/// same.
pub open spec fn faithful(v: Node) -> bool {
    match hear(v, seq![], seq![]) {
        Ok((heard, _)) => heard == v,
        Err(_) => false,
    }
}

// --------------------------------------------------------------------------------------------
// Reading what was written
// --------------------------------------------------------------------------------------------

#[verifier::rlimit(60)]
#[verifier::spinoff_prover]
proof fn lemma_reference(i: nat, read: Seq<Node>, tail: Seq<u8>)
    ensures
        model::decode(model::ref_bytes(i) + tail, read) == said(hear_reference(i, read), tail),
        model::ref_bytes(i).len() > 0,
        model::ref_bytes(i)[0] != 0x03,
{
    let data = model::ref_bytes(i) + tail;
    let rest = data.skip(1);
    bytes::lemma_pow256_values();
    if i < 0x21 {
        assert(rest =~= tail);
        assert(word_of(i) == i);
    } else {
        let w: nat = if i <= 0xFF {
            1
        } else if i <= 0xFFFF {
            2
        } else if i <= 0xFFFF_FFFF {
            4
        } else {
            8
        };
        bytes::lemma_le_bytes_len(i, w);
        bytes::lemma_le_bytes_wrap(i, w);
        assert(i % bytes::pow256(w) == i % 0x1_0000_0000_0000_0000) by {
            if w < 8 {
                vstd::arithmetic::div_mod::lemma_small_mod(i, bytes::pow256(w));
                vstd::arithmetic::div_mod::lemma_small_mod(i, 0x1_0000_0000_0000_0000);
            }
        }
        assert(rest.take(w as int) =~= bytes::le_bytes(i, w));
        assert(rest.skip(w as int) =~= tail);
    }
}

#[verifier::rlimit(60)]
#[verifier::spinoff_prover]
proof fn lemma_int(i: u64, read: Seq<Node>, tail: Seq<u8>)
    ensures
        model::decode(model::int_bytes(i) + tail, read) == Ok::<
            (Node, Seq<u8>, Seq<Node>),
            Seq<char>,
        >((Node::Int(i), tail, after_scalar(Node::Int(i), read))),
{
    let data = model::int_bytes(i) + tail;
    let rest = data.skip(1);
    bytes::lemma_pow256_values();
    if i < 0x28 {
        assert(rest =~= tail);
    } else {
        let w: nat = if i <= 0xFF {
            1
        } else if i <= 0xFFFF {
            2
        } else if i <= 0xFFFF_FFFF {
            4
        } else {
            8
        };
        bytes::lemma_le_bytes_len(i as nat, w);
        bytes::law_le_round_trip(i as nat, w);
        assert(rest.take(w as int) =~= bytes::le_bytes(i as nat, w));
        assert(rest.skip(w as int) =~= tail);
    }
}

#[verifier::rlimit(60)]
#[verifier::spinoff_prover]
proof fn lemma_str(t: Seq<char>, read: Seq<Node>, tail: Seq<u8>)
    requires
        sayable(Node::Str(t)),
    ensures
        model::decode(model::scalar(Node::Str(t)) + tail, read) == Ok::<
            (Node, Seq<u8>, Seq<Node>),
            Seq<char>,
        >((Node::Str(t), tail, model::remember(read, Node::Str(t)))),
{
    let b = encode_utf8(t);
    let n = b.len();
    let data = model::scalar(Node::Str(t)) + tail;
    let rest = data.skip(1);
    encode_utf8_valid_utf8(t);
    encode_utf8_decode_utf8(t);
    bytes::lemma_pow256_values();
    if n <= 0x20 {
        assert(rest.take(n as int) =~= b);
        assert(rest.skip(n as int) =~= tail);
    } else {
        let w: nat = if n <= 0xFF {
            1
        } else if n <= 0xFFFF {
            2
        } else if n <= 0xFF_FFFF {
            3
        } else {
            4
        };
        bytes::lemma_le_bytes_len(n, w);
        bytes::law_le_round_trip(n, w);
        assert(rest.take(w as int) =~= bytes::le_bytes(n, w));
        assert(rest.skip(w as int) =~= b + tail);
        assert((b + tail).take(n as int) =~= b);
        assert((b + tail).skip(n as int) =~= tail);
    }
}

#[verifier::rlimit(60)]
#[verifier::spinoff_prover]
proof fn lemma_data(d: Seq<u8>, read: Seq<Node>, tail: Seq<u8>)
    requires
        sayable(Node::Data(d)),
    ensures
        model::decode(model::scalar(Node::Data(d)) + tail, read) == Ok::<
            (Node, Seq<u8>, Seq<Node>),
            Seq<char>,
        >((Node::Data(d), tail, model::remember(read, Node::Data(d)))),
{
    let n = d.len();
    let data = model::scalar(Node::Data(d)) + tail;
    let rest = data.skip(1);
    bytes::lemma_pow256_values();
    if n <= 0x20 {
        assert(rest.take(n as int) =~= d);
        assert(rest.skip(n as int) =~= tail);
    } else {
        let w: nat = if n <= 0xFF {
            1
        } else if n <= 0xFFFF {
            2
        } else {
            4
        };
        bytes::lemma_le_bytes_len(n, w);
        bytes::law_le_round_trip(n, w);
        assert(rest.take(w as int) =~= bytes::le_bytes(n, w));
        assert(rest.skip(w as int) =~= d + tail);
        assert((d + tail).take(n as int) =~= d);
        assert((d + tail).skip(n as int) =~= tail);
    }
}

/// A value that holds no other is read as it is heard.
#[verifier::rlimit(60)]
#[verifier::spinoff_prover]
proof fn lemma_scalar(v: Node, written: Seq<Seq<u8>>, read: Seq<Node>, tail: Seq<u8>)
    requires
        !v.is_collection(),
        model::wf(v),
        sayable(v),
    ensures
        model::decode(model::settle(model::scalar(v), written).0 + tail, read) == said(
            hear_scalar(v, written, read),
            tail,
        ),
        model::settle(model::scalar(v), written).0.len() > 0,
        model::settle(model::scalar(v), written).0[0] != 0x03,
{
    match model::place(written, model::scalar(v)) {
        Some(i) => {
            lemma_reference(i, read, tail);
        },
        None => {
            match v {
                Node::Int(i) => {
                    lemma_int(i, read, tail);
                },
                Node::Str(t) => {
                    lemma_str(t, read, tail);
                },
                Node::Data(d) => {
                    lemma_data(d, read, tail);
                },
                Node::Uuid(u) => {
                    let rest = (model::scalar(v) + tail).skip(1);
                    assert(rest.take(16) =~= u);
                    assert(rest.skip(16) =~= tail);
                },
                _ => {
                    assert((model::scalar(v) + tail).skip(1) =~= tail);
                },
            }
        },
    }
}

/// What is sent for a value is read as it is heard, from in front of anything.
#[verifier::rlimit(60)]
#[verifier::spinoff_prover]
pub proof fn law_reader_hears(v: Node, written: Seq<Seq<u8>>, read: Seq<Node>, tail: Seq<u8>)
    requires
        model::wf(v),
        all_sayable(v),
    ensures
        model::decode(model::emit(v, written).0 + tail, read) == said(
            hear(v, written, read),
            tail,
        ),
        model::emit(v, written).0.len() > 0,
        model::emit(v, written).0[0] != 0x03,
    decreases v, 1int,
{
    if !v.is_collection() {
        lemma_scalar(v, written, read, tail);
    } else {
        let (whole, after) = model::full(v, written);
        match model::place(after, whole) {
            Some(i) => {
                lemma_reference(i, read, tail);
            },
            None => {
                let data = whole + tail;
                let rest = data.skip(1);
                match v {
                    Node::Arr(items) => {
                        let parts = model::emit_all(items, written).0;
                        if items.len() < 0xF {
                            lemma_counted(items, written, read, tail);
                            assert(rest =~= parts + tail);
                        } else {
                            lemma_endless(items, written, read, tail);
                            assert(rest =~= parts + seq![0x03u8] + tail);
                        }
                    },
                    Node::Dict(pairs) => {
                        let parts = model::emit_pairs(pairs, written).0;
                        if pairs.len() < 0xF {
                            lemma_counted_pairs(pairs, written, read, tail);
                            assert(rest =~= parts + tail);
                        } else {
                            lemma_endless_pairs(pairs, written, read, tail);
                            assert(rest =~= parts + seq![0x03u8] + tail);
                        }
                    },
                    _ => {},
                }
            },
        }
    }
}

/// Items that can be sent.
spec fn items_ok(items: Seq<Node>) -> bool {
    forall|i: int|
        0 <= i < items.len() ==> model::wf(#[trigger] items[i]) && all_sayable(items[i])
}

/// Entries that can be sent.
pub open spec fn pairs_ok(pairs: Seq<(Seq<char>, Node)>) -> bool {
    forall|i: int|
        0 <= i < pairs.len() ==> sayable(Node::Str((#[trigger] pairs[i]).0)) && model::wf(
            pairs[i].1,
        ) && all_sayable(pairs[i].1)
}

#[verifier::rlimit(60)]
#[verifier::spinoff_prover]
proof fn lemma_counted(items: Seq<Node>, written: Seq<Seq<u8>>, read: Seq<Node>, tail: Seq<u8>)
    requires
        items_ok(items),
    ensures
        model::decode_counted(items.len(), model::emit_all(items, written).0 + tail, read)
            == said(hear_all(items, written, read), tail),
    decreases items, 0int,
{
    let data = model::emit_all(items, written).0 + tail;
    if items.len() == 0 {
        assert(data =~= tail);
    } else {
        let (first, then) = model::emit(items[0], written);
        let rest = model::emit_all(items.skip(1), then).0 + tail;
        law_reader_hears(items[0], written, read, rest);
        assert(data =~= first + rest);
        if let Ok((_, next)) = hear(items[0], written, read) {
            lemma_counted(items.skip(1), then, next, tail);
        }
    }
}

#[verifier::rlimit(60)]
#[verifier::spinoff_prover]
proof fn lemma_endless(items: Seq<Node>, written: Seq<Seq<u8>>, read: Seq<Node>, tail: Seq<u8>)
    requires
        items_ok(items),
    ensures
        model::decode_endless(model::emit_all(items, written).0 + seq![0x03u8] + tail, read)
            == said(hear_all(items, written, read), tail),
    decreases items, 0int,
{
    let data = model::emit_all(items, written).0 + seq![0x03u8] + tail;
    if items.len() == 0 {
        assert(data.skip(1) =~= tail);
    } else {
        let (first, then) = model::emit(items[0], written);
        let rest = model::emit_all(items.skip(1), then).0 + seq![0x03u8] + tail;
        law_reader_hears(items[0], written, read, rest);
        assert(data =~= first + rest);
        if let Ok((_, next)) = hear(items[0], written, read) {
            lemma_endless(items.skip(1), then, next, tail);
        }
    }
}

/// One entry of a dictionary, as it is heard.
spec fn hear_pair(key: Seq<char>, value: Node, written: Seq<Seq<u8>>, read: Seq<Node>) -> Heard<
    (Seq<char>, Node),
> {
    let mid = model::settle(model::scalar(Node::Str(key)), written).1;
    match hear_scalar(Node::Str(key), written, read) {
        Err(i) => Err(i),
        Ok((name, then)) => match hear(value, mid, then) {
            Err(i) => Err(i),
            Ok((v, last)) => Ok(((model::key_text(name), v), last)),
        },
    }
}

/// One entry of a dictionary is read as it is heard.
#[verifier::rlimit(60)]
#[verifier::spinoff_prover]
proof fn lemma_pair(
    key: Seq<char>,
    value: Node,
    written: Seq<Seq<u8>>,
    read: Seq<Node>,
    tail: Seq<u8>,
)
    requires
        sayable(Node::Str(key)),
        model::wf(value),
        all_sayable(value),
    ensures
        ({
            let (sent, mid) = model::settle(model::scalar(Node::Str(key)), written);
            &&& model::decode_pair(sent + model::emit(value, mid).0 + tail, read) == said(
                hear_pair(key, value, written, read),
                tail,
            )
            &&& sent.len() > 0
            &&& sent[0] != 0x03
        }),
    decreases value, 2int,
{
    let (sent, mid) = model::settle(model::scalar(Node::Str(key)), written);
    let rest = model::emit(value, mid).0 + tail;
    lemma_scalar(Node::Str(key), written, read, rest);
    assert(sent + model::emit(value, mid).0 + tail =~= sent + rest);
    if let Ok((_, then)) = hear_scalar(Node::Str(key), written, read) {
        law_reader_hears(value, mid, then, tail);
    }
}

#[verifier::rlimit(60)]
#[verifier::spinoff_prover]
proof fn lemma_counted_pairs(
    pairs: Seq<(Seq<char>, Node)>,
    written: Seq<Seq<u8>>,
    read: Seq<Node>,
    tail: Seq<u8>,
)
    requires
        pairs_ok(pairs),
    ensures
        model::decode_counted_pairs(
            pairs.len(),
            model::emit_pairs(pairs, written).0 + tail,
            read,
        ) == said(hear_pairs(pairs, written, read), tail),
    decreases pairs, 0int,
{
    let data = model::emit_pairs(pairs, written).0 + tail;
    if pairs.len() == 0 {
        assert(data =~= tail);
    } else {
        let (sent, mid) = model::settle(model::scalar(Node::Str(pairs[0].0)), written);
        let (value, then) = model::emit(pairs[0].1, mid);
        let rest = model::emit_pairs(pairs.skip(1), then).0 + tail;
        assert(decreases_to!(pairs => pairs[0]));
        assert(decreases_to!(pairs[0] => pairs[0].1));
        lemma_pair(pairs[0].0, pairs[0].1, written, read, rest);
        assert(data =~= sent + value + rest);
        if let Ok((_, next)) = hear_pair(pairs[0].0, pairs[0].1, written, read) {
            lemma_counted_pairs(pairs.skip(1), then, next, tail);
        }
    }
}

#[verifier::rlimit(60)]
#[verifier::spinoff_prover]
proof fn lemma_endless_pairs(
    pairs: Seq<(Seq<char>, Node)>,
    written: Seq<Seq<u8>>,
    read: Seq<Node>,
    tail: Seq<u8>,
)
    requires
        pairs_ok(pairs),
    ensures
        model::decode_endless_pairs(
            model::emit_pairs(pairs, written).0 + seq![0x03u8] + tail,
            read,
        ) == said(hear_pairs(pairs, written, read), tail),
    decreases pairs, 0int,
{
    let data = model::emit_pairs(pairs, written).0 + seq![0x03u8] + tail;
    if pairs.len() == 0 {
        assert(data.skip(1) =~= tail);
    } else {
        let (sent, mid) = model::settle(model::scalar(Node::Str(pairs[0].0)), written);
        let (value, then) = model::emit(pairs[0].1, mid);
        let rest = model::emit_pairs(pairs.skip(1), then).0 + seq![0x03u8] + tail;
        assert(decreases_to!(pairs => pairs[0]));
        assert(decreases_to!(pairs[0] => pairs[0].1));
        lemma_pair(pairs[0].0, pairs[0].1, written, read, rest);
        assert(data =~= sent + value + rest);
        if let Ok((_, next)) = hear_pair(pairs[0].0, pairs[0].1, written, read) {
            lemma_endless_pairs(pairs.skip(1), then, next, tail);
        }
    }
}

/// What is packed is unpacked as it is heard, and that is the value itself exactly where every
/// reference comes to the same to its reader.
pub proof fn law_round_trip(v: Node)
    requires
        model::wf(v),
        all_sayable(v),
    ensures
        model::unpacked(model::packed(v)) == match hear(v, seq![], seq![]) {
            Ok((heard, _)) => Ok::<Node, Seq<char>>(heard),
            Err(i) => Err(model::past_the_end(i)),
        },
        faithful(v) <==> model::unpacked(model::packed(v)) == Ok::<Node, Seq<char>>(v),
{
    law_reader_hears(v, seq![], seq![], seq![]);
    assert(model::packed(v) + Seq::<u8>::empty() =~= model::packed(v));
}

/// A value that holds no other comes back as it was, whatever it is.
pub proof fn law_scalar_round_trip(v: Node)
    requires
        model::wf(v),
        !v.is_collection(),
        sayable(v),
    ensures
        model::unpacked(model::packed(v)) == Ok::<Node, Seq<char>>(v),
{
    law_round_trip(v);
}

// --------------------------------------------------------------------------------------------
// Without repeats
// --------------------------------------------------------------------------------------------

/// Nothing in `v` is sent as a reference after the objects in `written`.
pub open spec fn fresh(v: Node, written: Seq<Seq<u8>>) -> bool
    decreases v, 1int,
{
    let (whole, after) = model::full(v, written);
    model::place(after, whole) is None && match v {
        Node::Arr(items) => fresh_all(items, written),
        Node::Dict(pairs) => fresh_pairs(pairs, written),
        _ => true,
    }
}

/// Nothing in `items` is sent as a reference.
pub open spec fn fresh_all(items: Seq<Node>, written: Seq<Seq<u8>>) -> bool
    decreases items, 0int,
{
    items.len() > 0 ==> fresh(items[0], written) && fresh_all(
        items.skip(1),
        model::emit(items[0], written).1,
    )
}

/// Nothing in the entries of a dictionary is sent as a reference.
pub open spec fn fresh_pairs(pairs: Seq<(Seq<char>, Node)>, written: Seq<Seq<u8>>) -> bool
    decreases pairs, 0int,
{
    pairs.len() > 0 ==> {
        let key = model::scalar(Node::Str(pairs[0].0));
        let mid = model::settle(key, written).1;
        &&& model::place(written, key) is None
        &&& fresh(pairs[0].1, mid)
        &&& fresh_pairs(pairs.skip(1), model::emit(pairs[0].1, mid).1)
    }
}

/// What is sent without a reference is heard as it is.
proof fn lemma_fresh_is_heard(v: Node, written: Seq<Seq<u8>>, read: Seq<Node>)
    requires
        model::wf(v),
        fresh(v, written),
    ensures
        hear(v, written, read) is Ok,
        hear(v, written, read)->Ok_0.0 == v,
    decreases v, 1int,
{
    match v {
        Node::Arr(items) => {
            lemma_fresh_all_is_heard(items, written, read);
        },
        Node::Dict(pairs) => {
            lemma_fresh_pairs_are_heard(pairs, written, read);
            strmap::law_gather_of_ordered(pairs);
        },
        _ => {},
    }
}

proof fn lemma_fresh_all_is_heard(items: Seq<Node>, written: Seq<Seq<u8>>, read: Seq<Node>)
    requires
        all_wf(items),
        fresh_all(items, written),
    ensures
        hear_all(items, written, read) is Ok,
        hear_all(items, written, read)->Ok_0.0 == items,
    decreases items, 0int,
{
    if items.len() > 0 {
        lemma_fresh_is_heard(items[0], written, read);
        lemma_fresh_all_is_heard(
            items.skip(1),
            model::emit(items[0], written).1,
            hear(items[0], written, read)->Ok_0.1,
        );
        assert(seq![items[0]] + items.skip(1) =~= items);
    } else {
        assert(items =~= seq![]);
    }
}

proof fn lemma_fresh_pairs_are_heard(
    pairs: Seq<(Seq<char>, Node)>,
    written: Seq<Seq<u8>>,
    read: Seq<Node>,
)
    requires
        values_wf(pairs),
        fresh_pairs(pairs, written),
    ensures
        hear_pairs(pairs, written, read) is Ok,
        hear_pairs(pairs, written, read)->Ok_0.0 == pairs,
    decreases pairs, 0int,
{
    if pairs.len() > 0 {
        let name = Node::Str(pairs[0].0);
        let mid = model::settle(model::scalar(name), written).1;
        let then = hear_scalar(name, written, read)->Ok_0.1;
        assert(decreases_to!(pairs => pairs[0]));
        assert(decreases_to!(pairs[0] => pairs[0].1));
        lemma_fresh_is_heard(pairs[0].1, mid, then);
        lemma_fresh_pairs_are_heard(
            pairs.skip(1),
            model::emit(pairs[0].1, mid).1,
            hear(pairs[0].1, mid, then)->Ok_0.1,
        );
        assert(seq![(pairs[0].0, pairs[0].1)] + pairs.skip(1) =~= pairs);
    } else {
        assert(pairs =~= seq![]);
    }
}

/// A value in which nothing is sent twice comes back as it was.
pub proof fn law_without_repeats_round_trip(v: Node)
    requires
        model::wf(v),
        all_sayable(v),
        fresh(v, seq![]),
    ensures
        model::unpacked(model::packed(v)) == Ok::<Node, Seq<char>>(v),
{
    lemma_fresh_is_heard(v, seq![], seq![]);
    law_round_trip(v);
}

// --------------------------------------------------------------------------------------------
// Values in which nothing occurs twice
// --------------------------------------------------------------------------------------------

/// A value that is sent as one byte, and so never as a reference.
pub open spec fn one_byte(v: Node) -> bool {
    match v {
        Node::Null => true,
        Node::Bool(_) => true,
        Node::Int(i) => i < 0x28,
        Node::Str(t) => t.len() == 0,
        Node::Data(d) => d.len() == 0,
        Node::Uuid(_) => false,
        Node::Arr(items) => items.len() == 0,
        Node::Dict(pairs) => pairs.len() == 0,
    }
}

/// Everything in a value, at any depth: its keys, each as the text it is, and its members.
pub open spec fn members(v: Node) -> Seq<Node>
    decreases v, 1int,
{
    match v {
        Node::Arr(items) => members_all(items),
        Node::Dict(pairs) => members_pairs(pairs),
        _ => seq![],
    }
}

/// Each of `items` behind everything in it.
pub open spec fn members_all(items: Seq<Node>) -> Seq<Node>
    decreases items, 0int,
{
    if items.len() == 0 {
        seq![]
    } else {
        members(items[0]) + seq![items[0]] + members_all(items.skip(1))
    }
}

/// The key of each entry, everything in its value, and its value.
pub open spec fn members_pairs(pairs: Seq<(Seq<char>, Node)>) -> Seq<Node>
    decreases pairs, 0int,
{
    if pairs.len() == 0 {
        seq![]
    } else {
        seq![Node::Str(pairs[0].0)] + members(pairs[0].1) + seq![pairs[0].1] + members_pairs(
            pairs.skip(1),
        )
    }
}

/// Nothing that takes more than one byte occurs twice.
pub open spec fn no_repeats(s: Seq<Node>) -> bool {
    forall|i: int, j: int|
        0 <= i < j < s.len() && #[trigger] s[i] == #[trigger] s[j] ==> one_byte(s[i])
}

/// Every object of a table is longer than one byte, and is read as one of `sent`.
spec fn table_of(written: Seq<Seq<u8>>, sent: Seq<Node>) -> bool {
    forall|i: int| 0 <= i < written.len() ==> is_one_of(#[trigger] written[i], sent)
}

/// An object longer than one byte that is read as one of `sent`.
spec fn is_one_of(whole: Seq<u8>, sent: Seq<Node>) -> bool {
    whole.len() > 1 && exists|j: int|
        0 <= j < sent.len() && model::unpacked(whole) == Ok::<Node, Seq<char>>(
            #[trigger] sent[j],
        )
}

/// What is read as one of some values is read as one of more.
proof fn lemma_table_of_more(written: Seq<Seq<u8>>, sent: Seq<Node>, more: Seq<Node>)
    requires
        table_of(written, sent),
    ensures
        table_of(written, sent + more),
{
    assert forall|i: int| 0 <= i < written.len() implies is_one_of(
        #[trigger] written[i],
        sent + more,
    ) by {
        assert(is_one_of(written[i], sent));
        let j = choose|j: int|
            0 <= j < sent.len() && model::unpacked(written[i]) == Ok::<Node, Seq<char>>(
                #[trigger] sent[j],
            );
        assert((sent + more)[j] == sent[j]);
    }
}

/// An object that is read as `v` is new to a table of `sent`, where `v` is not among them or takes
/// one byte; and the table takes it in.
proof fn lemma_object_is_new(v: Node, whole: Seq<u8>, written: Seq<Seq<u8>>, sent: Seq<Node>)
    requires
        table_of(written, sent),
        model::unpacked(whole) == Ok::<Node, Seq<char>>(v),
        whole.len() > 1 ==> !sent.contains(v),
    ensures
        model::place(written, whole) is None,
        table_of(model::settle(whole, written).1, sent.push(v)),
{
    if model::place(written, whole) is Some {
        lemma_place_sound(written, whole);
        let i = model::place(written, whole)->0 as int;
        assert(is_one_of(written[i], sent));
    }
    lemma_table_of_more(written, sent, seq![v]);
    assert(sent + seq![v] =~= sent.push(v));
    assert(sent.push(v)[sent.len() as int] == v);
    let after = model::settle(whole, written).1;
    assert forall|i: int| 0 <= i < after.len() implies is_one_of(
        #[trigger] after[i],
        sent.push(v),
    ) by {
        if i < written.len() {
            assert(after[i] == written[i]);
        }
    }
}

/// A value that takes more than one byte and comes after `sent` is not among them.
proof fn lemma_not_sent_yet(sent: Seq<Node>, v: Node, rest: Seq<Node>)
    requires
        no_repeats(sent + seq![v] + rest),
        !one_byte(v),
    ensures
        !sent.contains(v),
{
    let s = sent + seq![v] + rest;
    if sent.contains(v) {
        let i = choose|i: int| 0 <= i < sent.len() && sent[i] == v;
        assert(s[i] == v && s[sent.len() as int] == v);
    }
}

/// The front of values without repeats is without repeats.
proof fn lemma_no_repeats_front(front: Seq<Node>, rest: Seq<Node>)
    requires
        no_repeats(front + rest),
    ensures
        no_repeats(front),
{
    let s = front + rest;
    assert forall|i: int, j: int|
        0 <= i < j < front.len() && #[trigger] front[i] == #[trigger] front[j] implies one_byte(
        front[i],
    ) by {
        assert(s[i] == front[i] && s[j] == front[j]);
    }
}

/// A value that holds no other is one byte long exactly where it is said to be.
proof fn lemma_one_byte(v: Node)
    requires
        !v.is_collection(),
        model::wf(v),
    ensures
        model::scalar(v).len() > 1 <==> !one_byte(v),
{
    lemma_scalar_shape(v);
    match v {
        Node::Int(i) => {
            bytes::lemma_le_bytes_len(i as nat, 1);
            bytes::lemma_le_bytes_len(i as nat, 2);
            bytes::lemma_le_bytes_len(i as nat, 4);
            bytes::lemma_le_bytes_len(i as nat, 8);
        },
        Node::Str(t) => {
            if encode_utf8(t).len() == 0 {
                assert(encode_utf8(t) =~= encode_utf8(Seq::<char>::empty()));
                text::lemma_utf8_injective(t, seq![]);
            } else if t.len() == 0 {
                assert(t =~= seq![]);
            }
        },
        _ => {},
    }
}

/// The full bytes of a collection in which nothing is sent as a reference are read as it.
proof fn lemma_whole_is_read(v: Node, written: Seq<Seq<u8>>)
    requires
        model::wf(v),
        all_sayable(v),
        v is Arr ==> fresh_all(v->Arr_0, written),
        v is Dict ==> fresh_pairs(v->Dict_0, written),
        v.is_collection(),
    ensures
        model::unpacked(model::full(v, written).0) == Ok::<Node, Seq<char>>(v),
        model::full(v, written).0.len() > 1 ==> !one_byte(v),
{
    let whole = model::full(v, written).0;
    let none = Seq::<u8>::empty();
    let read = Seq::<Node>::empty();
    let rest = whole.skip(1);
    match v {
        Node::Arr(items) => {
            lemma_fresh_all_is_heard(items, written, read);
            let parts = model::emit_all(items, written).0;
            if items.len() < 0xF {
                lemma_counted(items, written, read, none);
                assert(rest =~= parts + none);
            } else {
                lemma_endless(items, written, read, none);
                assert(rest =~= parts + seq![0x03u8] + none);
            }
        },
        Node::Dict(pairs) => {
            lemma_fresh_pairs_are_heard(pairs, written, read);
            strmap::law_gather_of_ordered(pairs);
            let parts = model::emit_pairs(pairs, written).0;
            if pairs.len() < 0xF {
                lemma_counted_pairs(pairs, written, read, none);
                assert(rest =~= parts + none);
            } else {
                lemma_endless_pairs(pairs, written, read, none);
                assert(rest =~= parts + seq![0x03u8] + none);
            }
        },
        _ => {},
    }
}

/// A value is sent without a reference where neither it nor anything in it was sent before.
proof fn lemma_distinct_is_fresh(v: Node, written: Seq<Seq<u8>>, sent: Seq<Node>)
    requires
        model::wf(v),
        all_sayable(v),
        table_of(written, sent),
        no_repeats(sent + members(v) + seq![v]),
    ensures
        fresh(v, written),
        table_of(model::emit(v, written).1, sent + members(v) + seq![v]),
    decreases v, 1int,
{
    let before = sent + members(v);
    let none = Seq::<Node>::empty();
    assert(before + seq![v] + none =~= before + seq![v]);
    assert(before.push(v) =~= before + seq![v]);
    if !one_byte(v) {
        lemma_not_sent_yet(before, v, none);
    }
    lemma_no_repeats_front(before, seq![v]);
    match v {
        Node::Arr(items) => {
            lemma_distinct_items(items, written, sent);
            lemma_whole_is_read(v, written);
            let (whole, after) = model::full(v, written);
            lemma_object_is_new(v, whole, after, before);
        },
        Node::Dict(pairs) => {
            lemma_distinct_entries(pairs, written, sent);
            lemma_whole_is_read(v, written);
            let (whole, after) = model::full(v, written);
            lemma_object_is_new(v, whole, after, before);
        },
        _ => {
            assert(before =~= sent);
            lemma_scalar_is_new(v, written, sent);
        },
    }
}

/// A value that holds no other is new to a table where it was not sent before.
proof fn lemma_scalar_is_new(v: Node, written: Seq<Seq<u8>>, sent: Seq<Node>)
    requires
        !v.is_collection(),
        model::wf(v),
        sayable(v),
        table_of(written, sent),
        !one_byte(v) ==> !sent.contains(v),
    ensures
        model::place(written, model::scalar(v)) is None,
        table_of(model::settle(model::scalar(v), written).1, sent.push(v)),
{
    lemma_one_byte(v);
    law_scalar_round_trip(v);
    assert(model::packed(v) == model::scalar(v)) by {
        assert(model::place(seq![], model::scalar(v)) is None);
    }
    lemma_object_is_new(v, model::scalar(v), written, sent);
}

proof fn lemma_distinct_items(items: Seq<Node>, written: Seq<Seq<u8>>, sent: Seq<Node>)
    requires
        items_ok(items),
        table_of(written, sent),
        no_repeats(sent + members_all(items)),
    ensures
        fresh_all(items, written),
        table_of(model::emit_all(items, written).1, sent + members_all(items)),
    decreases items, 0int,
{
    if items.len() > 0 {
        let first = sent + members(items[0]) + seq![items[0]];
        let rest = members_all(items.skip(1));
        assert(sent + members_all(items) =~= first + rest);
        lemma_no_repeats_front(first, rest);
        lemma_distinct_is_fresh(items[0], written, sent);
        lemma_distinct_items(items.skip(1), model::emit(items[0], written).1, first);
    } else {
        assert(sent + members_all(items) =~= sent);
    }
}

proof fn lemma_distinct_entries(
    pairs: Seq<(Seq<char>, Node)>,
    written: Seq<Seq<u8>>,
    sent: Seq<Node>,
)
    requires
        pairs_ok(pairs),
        table_of(written, sent),
        no_repeats(sent + members_pairs(pairs)),
    ensures
        fresh_pairs(pairs, written),
        table_of(model::emit_pairs(pairs, written).1, sent + members_pairs(pairs)),
    decreases pairs, 0int,
{
    if pairs.len() > 0 {
        let name = Node::Str(pairs[0].0);
        let value = pairs[0].1;
        assert(decreases_to!(pairs => pairs[0]));
        assert(decreases_to!(pairs[0] => pairs[0].1));
        let one = sent.push(name);
        let two = one + members(value) + seq![value];
        let rest = members_pairs(pairs.skip(1));
        let all = sent + members_pairs(pairs);
        assert(all =~= two + rest);
        assert(all =~= sent + seq![name] + (members(value) + seq![value] + rest));
        if !one_byte(name) {
            lemma_not_sent_yet(sent, name, members(value) + seq![value] + rest);
        }
        lemma_scalar_is_new(name, written, sent);
        let mid = model::settle(model::scalar(name), written).1;
        lemma_no_repeats_front(two, rest);
        lemma_distinct_is_fresh(value, mid, one);
        lemma_distinct_entries(pairs.skip(1), model::emit(value, mid).1, two);
    } else {
        assert(sent + members_pairs(pairs) =~= sent);
    }
}

/// Whatever is in a value is smaller than it.
proof fn lemma_members_smaller(v: Node)
    ensures
        forall|i: int| 0 <= i < members(v).len() ==> bound(#[trigger] members(v)[i]) < bound(v),
    decreases v, 1int,
{
    match v {
        Node::Arr(items) => {
            lemma_members_all_smaller(items);
            assert(members(v) == members_all(items));
            assert(bound(v) == 9 + bound_all(items));
        },
        Node::Dict(pairs) => {
            lemma_members_pairs_smaller(pairs);
            assert(members(v) == members_pairs(pairs));
            assert(bound(v) == 9 + bound_pairs(pairs));
        },
        _ => {},
    }
}

proof fn lemma_members_all_smaller(items: Seq<Node>)
    ensures
        forall|i: int|
            0 <= i < members_all(items).len() ==> bound(#[trigger] members_all(items)[i])
                <= bound_all(items),
    decreases items, 0int,
{
    if items.len() > 0 {
        let a = members(items[0]);
        let c = members_all(items.skip(1));
        lemma_members_smaller(items[0]);
        lemma_members_all_smaller(items.skip(1));
        assert forall|i: int| 0 <= i < members_all(items).len() implies bound(
            #[trigger] members_all(items)[i],
        ) <= bound_all(items) by {
            if i < a.len() {
                assert(members_all(items)[i] == a[i]);
            } else if i > a.len() {
                assert(members_all(items)[i] == c[i - a.len() - 1]);
            }
        }
    }
}

proof fn lemma_members_pairs_smaller(pairs: Seq<(Seq<char>, Node)>)
    ensures
        forall|i: int|
            0 <= i < members_pairs(pairs).len() ==> bound(#[trigger] members_pairs(pairs)[i])
                <= bound_pairs(pairs),
    decreases pairs, 0int,
{
    if pairs.len() > 0 {
        assert(decreases_to!(pairs => pairs[0]));
        assert(decreases_to!(pairs[0] => pairs[0].1));
        let a = members(pairs[0].1);
        let c = members_pairs(pairs.skip(1));
        lemma_members_smaller(pairs[0].1);
        lemma_members_pairs_smaller(pairs.skip(1));
        assert forall|i: int| 0 <= i < members_pairs(pairs).len() implies bound(
            #[trigger] members_pairs(pairs)[i],
        ) <= bound_pairs(pairs) by {
            if 0 < i <= a.len() {
                assert(members_pairs(pairs)[i] == a[i - 1]);
            } else if i > a.len() + 1 {
                assert(members_pairs(pairs)[i] == c[i - a.len() - 2]);
            }
        }
    }
}

/// A value in which no member or key of more than one byte occurs twice is sent without a
/// reference, however deep it is nested.
pub proof fn law_distinct_is_fresh(v: Node)
    requires
        model::wf(v),
        all_sayable(v),
        no_repeats(members(v)),
    ensures
        fresh(v, seq![]),
{
    let sent = Seq::<Node>::empty();
    let m = members(v);
    let s = sent + m + seq![v];
    lemma_members_smaller(v);
    assert forall|i: int, j: int|
        0 <= i < j < s.len() && #[trigger] s[i] == #[trigger] s[j] implies one_byte(s[i]) by {
        assert(s[i] == m[i]);
        if j < m.len() {
            assert(s[j] == m[j]);
        } else {
            assert(s[j] == v);
        }
    }
    lemma_distinct_is_fresh(v, seq![], sent);
}

/// A value in which no member or key of more than one byte occurs twice comes back as it was,
/// however deep it is nested. A key counts as the text that it is.
pub proof fn law_distinct_round_trip(v: Node)
    requires
        model::wf(v),
        all_sayable(v),
        no_repeats(members(v)),
    ensures
        model::unpacked(model::packed(v)) == Ok::<Node, Seq<char>>(v),
{
    law_distinct_is_fresh(v);
    law_without_repeats_round_trip(v);
}

// --------------------------------------------------------------------------------------------
// Repeats
// --------------------------------------------------------------------------------------------

/// What is in a table is found in it.
proof fn lemma_place_complete(seen: Seq<Seq<u8>>, whole: Seq<u8>)
    requires
        seen.contains(whole),
    ensures
        model::place(seen, whole) is Some,
        model::place(seen, whole)->0 < seen.len(),
        seen[model::place(seen, whole)->0 as int] == whole,
    decreases seen.len(),
{
    if model::place(seen.drop_last(), whole) is Some {
        lemma_place_sound(seen.drop_last(), whole);
    } else if seen.last() != whole {
        let i = choose|i: int| 0 <= i < seen.len() && seen[i] == whole;
        assert(seen.drop_last()[i] == whole);
        lemma_place_complete(seen.drop_last(), whole);
    }
}

/// What is found in a table stands where it was found.
proof fn lemma_place_sound(seen: Seq<Seq<u8>>, whole: Seq<u8>)
    requires
        model::place(seen, whole) is Some,
    ensures
        model::place(seen, whole)->0 < seen.len(),
        seen[model::place(seen, whole)->0 as int] == whole,
    decreases seen.len(),
{
    if model::place(seen.drop_last(), whole) is Some {
        lemma_place_sound(seen.drop_last(), whole);
    }
}

/// What is not in a table is not found in it.
pub proof fn lemma_place_none(seen: Seq<Seq<u8>>, whole: Seq<u8>)
    requires
        forall|i: int| 0 <= i < seen.len() ==> #[trigger] seen[i] != whole,
    ensures
        model::place(seen, whole) is None,
{
    if model::place(seen, whole) is Some {
        lemma_place_sound(seen, whole);
    }
}

/// What is in a table is found where it first stands.
pub proof fn lemma_place_first(seen: Seq<Seq<u8>>, whole: Seq<u8>, i: int)
    requires
        0 <= i < seen.len(),
        seen[i] == whole,
        forall|j: int| 0 <= j < i ==> #[trigger] seen[j] != whole,
    ensures
        model::place(seen, whole) == Some(i as nat),
    decreases seen.len(),
{
    if i < seen.len() - 1 {
        lemma_place_first(seen.drop_last(), whole, i);
    } else {
        lemma_place_none(seen.drop_last(), whole);
    }
}

/// One entry that is heard as it is, in front of entries that are.
pub proof fn lemma_entry_is_heard(
    pairs: Seq<(Seq<char>, Node)>,
    written: Seq<Seq<u8>>,
    read: Seq<Node>,
    then: Seq<Node>,
    last: Seq<Node>,
)
    requires
        pairs.len() > 0,
        hear_scalar(Node::Str(pairs[0].0), written, read) == Ok::<(Node, Seq<Node>), nat>(
            (Node::Str(pairs[0].0), then),
        ),
        hear(
            pairs[0].1,
            model::settle(model::scalar(Node::Str(pairs[0].0)), written).1,
            then,
        ) == Ok::<(Node, Seq<Node>), nat>((pairs[0].1, last)),
    ensures
        ({
            let mid = model::settle(model::scalar(Node::Str(pairs[0].0)), written).1;
            let after = model::emit(pairs[0].1, mid).1;
            let rest = hear_pairs(pairs.skip(1), after, last);
            &&& model::emit_pairs(pairs, written).1 == model::emit_pairs(pairs.skip(1), after).1
            &&& rest is Ok && rest->Ok_0.0 == pairs.skip(1) ==> hear_pairs(pairs, written, read)
                == Ok::<(Seq<(Seq<char>, Node)>, Seq<Node>), nat>((pairs, rest->Ok_0.1))
        }),
{
    assert(seq![(pairs[0].0, pairs[0].1)] + pairs.skip(1) =~= pairs);
}

/// An object longer than one byte that was sent before is sent as the index of its first
/// occurrence, and sending it again changes no table.
pub proof fn law_repeat_is_reference(v: Node, seen: Seq<Seq<u8>>)
    requires
        !v.is_collection(),
        model::scalar(v).len() > 1,
    ensures
        ({
            let after = model::emit(v, seen).1;
            let i = model::place(after, model::scalar(v));
            &&& i is Some
            &&& i->0 < after.len()
            &&& after[i->0 as int] == model::scalar(v)
            &&& model::emit(v, after) == (model::ref_bytes(i->0), after)
        }),
{
    let whole = model::scalar(v);
    let after = model::emit(v, seen).1;
    match model::place(seen, whole) {
        Some(i) => {
            lemma_place_sound(seen, whole);
        },
        None => {
            assert(after.last() == whole);
            assert(after.contains(whole));
            lemma_place_complete(after, whole);
        },
    }
}

/// `n` times the same value.
pub open spec fn copies(v: Node, n: nat) -> Seq<Node> {
    Seq::new(n, |i: int| v)
}

/// `n` references to the first object of a table.
pub open spec fn marks(n: nat) -> Seq<u8> {
    Seq::new(n, |i: int| 0xA0u8)
}

proof fn lemma_copies(v: Node, n: nat)
    requires
        !v.is_collection(),
        sayable(v),
        model::scalar(v).len() > 1,
    ensures
        ({
            let table = seq![model::scalar(v)];
            &&& model::emit_all(copies(v, n), table) == (marks(n), table)
            &&& hear_all(copies(v, n), table, seq![v]) == Ok::<(Seq<Node>, Seq<Node>), nat>(
                (copies(v, n), seq![v]),
            )
        }),
    decreases n,
{
    let table = seq![model::scalar(v)];
    let items = copies(v, n);
    assert(table.drop_last() =~= seq![]);
    assert(model::place(table.drop_last(), model::scalar(v)) is None);
    assert(model::place(table, model::scalar(v)) == Some(0nat));
    if n > 0 {
        lemma_copies(v, (n - 1) as nat);
        assert(items.skip(1) =~= copies(v, (n - 1) as nat));
        assert(items[0] == v);
        assert(model::emit(v, table) == (model::ref_bytes(0), table));
        assert(word_of(0) == 0);
        assert(hear(v, table, seq![v]) == Ok::<(Node, Seq<Node>), nat>((v, seq![v])));
        assert(seq![v] + copies(v, (n - 1) as nat) =~= items);
        assert(model::ref_bytes(0) + marks((n - 1) as nat) =~= marks(n));
    } else {
        assert(marks(0) =~= seq![]);
        assert(items =~= seq![]);
    }
}

/// An array of the same object over and over is sent with the object once and one byte for each
/// repeat, and comes back as it was.
pub proof fn law_repeats_come_back(v: Node, n: nat)
    requires
        model::wf(v),
        !v.is_collection(),
        sayable(v),
        model::scalar(v).len() > 1,
        n > 0,
    ensures
        model::packed(Node::Arr(copies(v, n))) == model::open_tag(0xD0, n) + model::scalar(v)
            + marks((n - 1) as nat) + model::close_tag(n),
        model::unpacked(model::packed(Node::Arr(copies(v, n)))) == Ok::<Node, Seq<char>>(
            Node::Arr(copies(v, n)),
        ),
{
    let none = Seq::<Seq<u8>>::empty();
    let items = copies(v, n);
    let whole = model::scalar(v);
    let array = Node::Arr(items);
    assert(model::place(none, whole) is None);
    assert(none.push(whole) =~= seq![whole]);
    assert(model::emit(v, none) == (whole, seq![whole]));
    assert(items[0] == v);
    assert(items.skip(1) =~= copies(v, (n - 1) as nat));
    lemma_copies(v, (n - 1) as nat);
    assert(Seq::<Node>::empty().push(v) =~= seq![v]);
    assert(after_scalar(v, seq![]) == seq![v]) by {
        if v is Int {
            assert(v->Int_0 >= 0x28);
        }
    }
    assert(hear(v, none, seq![]) == Ok::<(Node, Seq<Node>), nat>((v, seq![v])));
    assert(seq![v] + copies(v, (n - 1) as nat) =~= items);
    let (all, after) = model::full(array, none);
    assert(after == seq![whole]);
    assert(all =~= model::open_tag(0xD0, n) + whole + marks((n - 1) as nat)
        + model::close_tag(n));
    assert(after.drop_last() =~= none);
    assert(all.len() > whole.len());
    assert(model::place(after.drop_last(), all) is None);
    assert(model::place(after, all) is None);
    assert(all_sayable(v));
    law_round_trip(array);
}

// --------------------------------------------------------------------------------------------
// Flat collections
// --------------------------------------------------------------------------------------------

/// A value that holds no other and is not empty: of such a value the two tables keep the same.
pub open spec fn plain(v: Node) -> bool {
    match v {
        Node::Arr(_) => false,
        Node::Dict(_) => false,
        Node::Str(t) => t.len() > 0,
        Node::Data(d) => d.len() > 0,
        _ => true,
    }
}

/// A collection with nothing in it, which is sent as one byte and joins no table.
pub open spec fn hollow(v: Node) -> bool {
    match v {
        Node::Arr(items) => items.len() == 0,
        Node::Dict(pairs) => pairs.len() == 0,
        _ => false,
    }
}

/// A value that a flat collection can hold.
pub open spec fn shallow(v: Node) -> bool {
    plain(v) || hollow(v)
}

/// A collection whose members are plain values and collections with nothing in them: no text or
/// data in it is empty, nor is a key.
pub open spec fn flat(v: Node) -> bool {
    match v {
        Node::Arr(items) => forall|i: int| 0 <= i < items.len() ==> shallow(#[trigger] items[i]),
        Node::Dict(pairs) => forall|i: int|
            0 <= i < pairs.len() ==> (#[trigger] pairs[i]).0.len() > 0 && shallow(pairs[i].1),
        _ => false,
    }
}

/// The writer's table and the reader's hold the same in their first `n` places.
pub open spec fn in_step(written: Seq<Seq<u8>>, read: Seq<Node>, n: nat) -> bool {
    &&& n <= written.len()
    &&& n <= read.len()
    &&& n <= usize::MAX
    &&& forall|i: int|
        0 <= i < n ==> {
            &&& plain(#[trigger] read[i])
            &&& model::wf(read[i])
            &&& sayable(read[i])
            &&& written[i] == model::scalar(read[i])
        }
}

/// The writer's table and the reader's hold the same.
pub open spec fn level(written: Seq<Seq<u8>>, read: Seq<Node>) -> bool {
    written.len() == read.len() && in_step(written, read, read.len())
}

/// Two values that hold no other are written alike only where they are the same.
pub proof fn lemma_scalar_injective(a: Node, b: Node)
    requires
        !a.is_collection(),
        !b.is_collection(),
        model::wf(a),
        model::wf(b),
        sayable(a),
        sayable(b),
        model::scalar(a) == model::scalar(b),
    ensures
        a == b,
{
    lemma_scalar(a, seq![], seq![], seq![]);
    lemma_scalar(b, seq![], seq![], seq![]);
}

/// A value that holds no other begins with a tag of its own kind, and only one that stays out of
/// both tables, or is empty, is one byte long.
pub proof fn lemma_scalar_shape(v: Node)
    requires
        !v.is_collection(),
        model::wf(v),
    ensures
        model::scalar(v).len() > 0,
        model::scalar(v)[0] < 0xA0,
        plain(v) ==> forall|read: Seq<Node>|
            (#[trigger] after_scalar(v, read)) == (if model::scalar(v).len() == 1 {
                read
            } else {
                model::remember(read, v)
            }),
{
    match v {
        Node::Int(i) => {
            bytes::lemma_le_bytes_len(i as nat, 1);
            bytes::lemma_le_bytes_len(i as nat, 2);
            bytes::lemma_le_bytes_len(i as nat, 4);
            bytes::lemma_le_bytes_len(i as nat, 8);
        },
        Node::Str(t) => {
            if encode_utf8(t).len() == 0 {
                assert(encode_utf8(t) =~= encode_utf8(Seq::<char>::empty()));
                text::lemma_utf8_injective(t, seq![]);
            }
        },
        _ => {},
    }
}

/// A value that is new, or that the writer found where the tables are in step, is heard as it is.
pub proof fn lemma_is_heard(v: Node, written: Seq<Seq<u8>>, read: Seq<Node>, n: nat)
    requires
        !v.is_collection(),
        model::wf(v),
        sayable(v),
        in_step(written, read, n),
        forall|i: int| n <= i < written.len() ==> #[trigger] written[i] != model::scalar(v),
    ensures
        ({
            let heard = hear_scalar(v, written, read);
            let after = model::settle(model::scalar(v), written).1;
            &&& heard is Ok
            &&& heard->Ok_0.0 == v
            &&& in_step(after, heard->Ok_0.1, n)
            &&& after == written || after == written.push(model::scalar(v))
        }),
{
    let whole = model::scalar(v);
    if model::place(written, whole) is Some {
        lemma_place_sound(written, whole);
        let i = model::place(written, whole)->0;
        assert(i < n);
        lemma_scalar_injective(v, read[i as int]);
    }
}

/// While the tables hold the same, a plain value is heard as it is, and they go on holding the
/// same.
pub proof fn lemma_plain_is_heard(v: Node, written: Seq<Seq<u8>>, read: Seq<Node>)
    requires
        plain(v),
        model::wf(v),
        sayable(v),
        level(written, read),
        written.len() < usize::MAX,
    ensures
        ({
            let heard = hear_scalar(v, written, read);
            let after = model::settle(model::scalar(v), written).1;
            &&& heard is Ok
            &&& heard->Ok_0.0 == v
            &&& level(after, heard->Ok_0.1)
            &&& after.len() <= written.len() + 1
        }),
{
    let whole = model::scalar(v);
    lemma_is_heard(v, written, read, read.len());
    lemma_scalar_shape(v);
    if model::place(written, whole) is None && read.contains(v) {
        let i = choose|i: int| 0 <= i < read.len() && read[i] == v;
        assert(written[i] == whole);
        lemma_place_complete(written, whole);
    }
}

/// While the tables hold the same, a member of a flat collection is heard as it is, and they go on
/// holding the same.
proof fn lemma_member_is_heard(v: Node, written: Seq<Seq<u8>>, read: Seq<Node>)
    requires
        shallow(v),
        model::wf(v),
        all_sayable(v),
        level(written, read),
        written.len() < usize::MAX,
    ensures
        ({
            let heard = hear(v, written, read);
            let after = model::emit(v, written).1;
            &&& heard is Ok
            &&& heard->Ok_0.0 == v
            &&& level(after, heard->Ok_0.1)
            &&& after.len() <= written.len() + 1
        }),
{
    if hollow(v) {
        let (whole, after) = model::full(v, written);
        assert(after == written);
        assert(whole.len() == 1);
        lemma_collection_is_new(v, written, read);
        match v {
            Node::Arr(items) => {
                assert(items =~= seq![]);
            },
            Node::Dict(pairs) => {
                assert(pairs =~= seq![]);
                assert(strmap::gather(pairs) =~= pairs);
            },
            _ => {},
        }
    } else {
        lemma_plain_is_heard(v, written, read);
    }
}

proof fn lemma_flat_items(items: Seq<Node>, written: Seq<Seq<u8>>, read: Seq<Node>)
    requires
        forall|i: int| 0 <= i < items.len() ==> shallow(#[trigger] items[i]),
        items_ok(items),
        level(written, read),
        written.len() + items.len() <= usize::MAX,
    ensures
        ({
            let heard = hear_all(items, written, read);
            &&& heard is Ok
            &&& heard->Ok_0.0 == items
            &&& level(model::emit_all(items, written).1, heard->Ok_0.1)
        }),
    decreases items.len(),
{
    if items.len() > 0 {
        let (first, then) = model::emit(items[0], written);
        lemma_member_is_heard(items[0], written, read);
        let next = hear(items[0], written, read)->Ok_0.1;
        lemma_flat_items(items.skip(1), then, next);
        assert(seq![items[0]] + items.skip(1) =~= items);
    } else {
        assert(items =~= seq![]);
    }
}

/// While the tables hold the same, the entries of a flat dictionary are heard as they are.
pub proof fn lemma_flat_entries(
    pairs: Seq<(Seq<char>, Node)>,
    written: Seq<Seq<u8>>,
    read: Seq<Node>,
)
    requires
        forall|i: int|
            0 <= i < pairs.len() ==> (#[trigger] pairs[i]).0.len() > 0 && shallow(pairs[i].1),
        pairs_ok(pairs),
        level(written, read),
        written.len() + 2 * pairs.len() <= usize::MAX,
    ensures
        ({
            let heard = hear_pairs(pairs, written, read);
            &&& heard is Ok
            &&& heard->Ok_0.0 == pairs
            &&& level(model::emit_pairs(pairs, written).1, heard->Ok_0.1)
        }),
    decreases pairs.len(),
{
    if pairs.len() > 0 {
        let name = Node::Str(pairs[0].0);
        let value = pairs[0].1;
        let mid = model::settle(model::scalar(name), written).1;
        lemma_plain_is_heard(name, written, read);
        let then = hear_scalar(name, written, read)->Ok_0.1;
        lemma_member_is_heard(value, mid, then);
        let next = hear(value, mid, then)->Ok_0.1;
        lemma_flat_entries(pairs.skip(1), model::emit(value, mid).1, next);
        assert(seq![(pairs[0].0, value)] + pairs.skip(1) =~= pairs);
    } else {
        assert(pairs =~= seq![]);
    }
}

/// A collection is not in a table of plain values: none of them begins as it does.
pub proof fn lemma_collection_is_new(v: Node, written: Seq<Seq<u8>>, read: Seq<Node>)
    requires
        v.is_collection(),
        level(model::full(v, written).1, read),
    ensures
        model::place(model::full(v, written).1, model::full(v, written).0) is None,
        model::full(v, written).0[0] >= 0xD0,
{
    let (whole, after) = model::full(v, written);
    assert(whole[0] >= 0xD0);
    if model::place(after, whole) is Some {
        lemma_place_sound(after, whole);
        let i = model::place(after, whole)->0 as int;
        lemma_scalar_shape(read[i]);
    }
}

/// How many objects a collection sends at most, not counting itself.
pub open spec fn objects(v: Node) -> nat {
    match v {
        Node::Arr(items) => items.len(),
        Node::Dict(pairs) => 2 * pairs.len(),
        _ => 0,
    }
}

/// A flat collection comes back as it was, whatever repeats in it and however many of its members
/// are collections with nothing in them.
pub proof fn law_flat_round_trip(v: Node)
    requires
        model::wf(v),
        all_sayable(v),
        flat(v),
        objects(v) <= usize::MAX,
    ensures
        model::unpacked(model::packed(v)) == Ok::<Node, Seq<char>>(v),
{
    let none = Seq::<Seq<u8>>::empty();
    let nothing = Seq::<Node>::empty();
    match v {
        Node::Arr(items) => {
            lemma_flat_items(items, none, nothing);
            lemma_collection_is_new(v, none, hear_all(items, none, nothing)->Ok_0.1);
        },
        Node::Dict(pairs) => {
            lemma_flat_entries(pairs, none, nothing);
            lemma_collection_is_new(v, none, hear_pairs(pairs, none, nothing)->Ok_0.1);
            strmap::law_gather_of_ordered(pairs);
        },
        _ => {},
    }
    law_round_trip(v);
}

/// Entries of plain values that can be sent, none of them under an empty key.
pub open spec fn plain_entries(pairs: Seq<(Seq<char>, Node)>) -> bool {
    forall|i: int| 0 <= i < pairs.len() ==> plain_entry(#[trigger] pairs[i])
}

/// A plain value that can be sent, under a key that is not empty.
pub open spec fn plain_entry(pair: (Seq<char>, Node)) -> bool {
    &&& pair.0.len() > 0
    &&& sayable(Node::Str(pair.0))
    &&& plain(pair.1)
    &&& sayable(pair.1)
    &&& model::wf(pair.1)
}

proof fn lemma_put_plain(s: Seq<(Seq<char>, Node)>, key: Seq<char>, value: Node)
    requires
        plain_entries(s),
        plain_entry((key, value)),
    ensures
        plain_entries(strmap::put(s, key, value)),
        strmap::put(s, key, value).len() <= s.len() + 1,
    decreases s.len(),
{
    if s.len() > 0 && s[0].0 != key && !text::before(key, s[0].0) {
        lemma_put_plain(s.skip(1), key, value);
    }
}

/// Gathering plain entries makes a flat dictionary.
pub proof fn lemma_gather_plain(pairs: Seq<(Seq<char>, Node)>)
    requires
        plain_entries(pairs),
    ensures
        plain_entries(strmap::gather(pairs)),
        strmap::gather(pairs).len() <= pairs.len(),
        flat(Node::Dict(strmap::gather(pairs))),
        model::wf(Node::Dict(strmap::gather(pairs))),
        all_sayable(Node::Dict(strmap::gather(pairs))),
    decreases pairs.len(),
{
    strmap::lemma_gather_ascending(pairs);
    if pairs.len() > 0 {
        lemma_gather_plain(pairs.drop_last());
        lemma_put_plain(strmap::gather(pairs.drop_last()), pairs.last().0, pairs.last().1);
    }
    let g = strmap::gather(pairs);
    assert forall|i: int| 0 <= i < g.len() implies sayable(Node::Str((#[trigger] g[i]).0))
        && all_sayable(g[i].1) by {
        assert(plain_entry(g[i]));
    }
}

// --------------------------------------------------------------------------------------------
// Truncation
// --------------------------------------------------------------------------------------------

/// A value that was read is read all the same where more bytes follow, and they are left alone.
#[verifier::rlimit(60)]
#[verifier::spinoff_prover]
pub proof fn law_what_follows_is_left_alone(data: Seq<u8>, seen: Seq<Node>, tail: Seq<u8>)
    requires
        model::decode(data, seen) is Ok,
    ensures
        model::decode(data + tail, seen) == followed(model::decode(data, seen), tail),
    decreases data.len(), 0int,
{
    let tag = data[0];
    let rest = data.skip(1);
    let more = data + tail;
    assert(more[0] == tag);
    assert(more.skip(1) =~= rest + tail);
    if 0xD0 <= tag <= 0xDE {
        lemma_counted_followed((tag - 0xD0) as nat, rest, seen, tail);
    } else if tag == 0xDF {
        lemma_endless_followed(rest, seen, tail);
    } else if 0xE0 <= tag <= 0xEE {
        lemma_counted_pairs_followed((tag - 0xE0) as nat, rest, seen, tail);
    } else if tag == 0xEF {
        lemma_endless_pairs_followed(rest, seen, tail);
    } else {
        lemma_front_of_more(rest, tail);
    }
}

/// What was read, with `tail` behind what was left.
pub open spec fn followed<T>(parsed: model::Parsed<T>, tail: Seq<u8>) -> model::Parsed<T> {
    match parsed {
        Ok((v, rest, after)) => Ok((v, rest + tail, after)),
        Err(e) => Err(e),
    }
}

/// The front of bytes is the same where more follow, and what comes after it has them behind it.
proof fn lemma_front_of_more(data: Seq<u8>, tail: Seq<u8>)
    ensures
        forall|n: int|
            0 <= n <= data.len() ==> #[trigger] (data + tail).take(n) == data.take(n),
        forall|n: int|
            0 <= n <= data.len() ==> #[trigger] (data + tail).skip(n) == data.skip(n) + tail,
        forall|m: int, n: int|
            0 <= m <= data.len() && 0 <= n <= data.len() - m ==> #[trigger] (data.skip(m)
                + tail).take(n) == data.skip(m).take(n),
        forall|m: int, n: int|
            0 <= m <= data.len() && 0 <= n <= data.len() - m ==> #[trigger] (data.skip(m)
                + tail).skip(n) == data.skip(m).skip(n) + tail,
{
    assert forall|n: int| 0 <= n <= data.len() implies #[trigger] (data + tail).take(n)
        == data.take(n) by {
        assert((data + tail).take(n) =~= data.take(n));
    }
    assert forall|n: int| 0 <= n <= data.len() implies #[trigger] (data + tail).skip(n)
        == data.skip(n) + tail by {
        assert((data + tail).skip(n) =~= data.skip(n) + tail);
    }
    assert forall|m: int, n: int| 0 <= m <= data.len() && 0 <= n <= data.len() - m implies #[trigger] (
    data.skip(m) + tail).take(n) == data.skip(m).take(n) by {
        assert((data.skip(m) + tail).take(n) =~= data.skip(m).take(n));
    }
    assert forall|m: int, n: int| 0 <= m <= data.len() && 0 <= n <= data.len() - m implies #[trigger] (
    data.skip(m) + tail).skip(n) == data.skip(m).skip(n) + tail by {
        assert((data.skip(m) + tail).skip(n) =~= data.skip(m).skip(n) + tail);
    }
}

proof fn lemma_counted_followed(n: nat, data: Seq<u8>, seen: Seq<Node>, tail: Seq<u8>)
    requires
        model::decode_counted(n, data, seen) is Ok,
    ensures
        model::decode_counted(n, data + tail, seen) == followed(
            model::decode_counted(n, data, seen),
            tail,
        ),
    decreases data.len(), 1int,
{
    if n > 0 {
        law_what_follows_is_left_alone(data, seen, tail);
        let (_, rest, then) = model::decode(data, seen)->Ok_0;
        lemma_counted_followed((n - 1) as nat, rest, then, tail);
    }
}

proof fn lemma_endless_followed(data: Seq<u8>, seen: Seq<Node>, tail: Seq<u8>)
    requires
        model::decode_endless(data, seen) is Ok,
    ensures
        model::decode_endless(data + tail, seen) == followed(
            model::decode_endless(data, seen),
            tail,
        ),
    decreases data.len(), 1int,
{
    assert((data + tail)[0] == data[0]);
    if data[0] == 0x03 {
        assert((data + tail).skip(1) =~= data.skip(1) + tail);
    } else {
        law_what_follows_is_left_alone(data, seen, tail);
        let (_, rest, then) = model::decode(data, seen)->Ok_0;
        lemma_endless_followed(rest, then, tail);
    }
}

proof fn lemma_pair_followed(data: Seq<u8>, seen: Seq<Node>, tail: Seq<u8>)
    requires
        model::decode_pair(data, seen) is Ok,
    ensures
        model::decode_pair(data + tail, seen) == followed(model::decode_pair(data, seen), tail),
    decreases data.len(), 1int,
{
    law_what_follows_is_left_alone(data, seen, tail);
    let (_, rest, then) = model::decode(data, seen)->Ok_0;
    law_what_follows_is_left_alone(rest, then, tail);
}

proof fn lemma_counted_pairs_followed(n: nat, data: Seq<u8>, seen: Seq<Node>, tail: Seq<u8>)
    requires
        model::decode_counted_pairs(n, data, seen) is Ok,
    ensures
        model::decode_counted_pairs(n, data + tail, seen) == followed(
            model::decode_counted_pairs(n, data, seen),
            tail,
        ),
    decreases data.len(), 2int,
{
    if n > 0 {
        lemma_pair_followed(data, seen, tail);
        let (_, rest, then) = model::decode_pair(data, seen)->Ok_0;
        lemma_counted_pairs_followed((n - 1) as nat, rest, then, tail);
    }
}

proof fn lemma_endless_pairs_followed(data: Seq<u8>, seen: Seq<Node>, tail: Seq<u8>)
    requires
        model::decode_endless_pairs(data, seen) is Ok,
    ensures
        model::decode_endless_pairs(data + tail, seen) == followed(
            model::decode_endless_pairs(data, seen),
            tail,
        ),
    decreases data.len(), 2int,
{
    assert((data + tail)[0] == data[0]);
    if data[0] == 0x03 {
        assert((data + tail).skip(1) =~= data.skip(1) + tail);
    } else {
        lemma_pair_followed(data, seen, tail);
        let (_, rest, then) = model::decode_pair(data, seen)->Ok_0;
        lemma_endless_pairs_followed(rest, then, tail);
    }
}

/// What was sent for a value and cut short is refused, wherever the cut is.
pub proof fn law_truncated_is_refused(v: Node, cut: int)
    requires
        model::wf(v),
        all_sayable(v),
        0 <= cut < model::packed(v).len(),
    ensures
        model::unpacked(model::packed(v).take(cut)) is Err,
{
    let whole = model::packed(v);
    let none = Seq::<u8>::empty();
    law_reader_hears(v, seq![], seq![], none);
    assert(whole + none =~= whole);
    if model::decode(whole.take(cut), seq![]) is Ok {
        law_what_follows_is_left_alone(whole.take(cut), seq![], whole.skip(cut));
        assert(whole.take(cut) + whole.skip(cut) =~= whole);
        let left = model::decode(whole.take(cut), seq![])->Ok_0.1;
        assert((left + whole.skip(cut)).len() > 0);
    }
}

// --------------------------------------------------------------------------------------------
// Validity
// --------------------------------------------------------------------------------------------

/// Every value of `seen` is one that a `Val` can hold.
pub open spec fn all_wf(seen: Seq<Node>) -> bool {
    forall|i: int| 0 <= i < seen.len() ==> model::wf(#[trigger] seen[i])
}

/// Whatever bytes are read, what comes out is a valid value, and it took at least one byte.
pub proof fn law_read_is_valid(data: Seq<u8>, seen: Seq<Node>)
    requires
        all_wf(seen),
    ensures
        match model::decode(data, seen) {
            Ok((v, rest, after)) => model::wf(v) && all_wf(after) && rest.len() < data.len(),
            Err(_) => true,
        },
    decreases data.len(), 0int,
{
    if data.len() >= 1 {
        let tag = data[0];
        let rest = data.skip(1);
        if 0xD0 <= tag <= 0xDE {
            lemma_counted_valid((tag - 0xD0) as nat, rest, seen);
        } else if tag == 0xDF {
            lemma_endless_valid(rest, seen);
        } else if 0xE0 <= tag <= 0xEE {
            lemma_counted_pairs_valid((tag - 0xE0) as nat, rest, seen);
            if let Ok((pairs, _, _)) = model::decode_counted_pairs((tag - 0xE0) as nat, rest, seen) {
                lemma_gather_valid(pairs);
            }
        } else if tag == 0xEF {
            lemma_endless_pairs_valid(rest, seen);
            if let Ok((pairs, _, _)) = model::decode_endless_pairs(rest, seen) {
                lemma_gather_valid(pairs);
            }
        }
    }
}

proof fn lemma_counted_valid(n: nat, data: Seq<u8>, seen: Seq<Node>)
    requires
        all_wf(seen),
    ensures
        match model::decode_counted(n, data, seen) {
            Ok((items, rest, after)) => all_wf(items) && all_wf(after) && rest.len() <= data.len(),
            Err(_) => true,
        },
    decreases data.len(), 1int,
{
    if n > 0 {
        law_read_is_valid(data, seen);
        if let Ok((v, rest, then)) = model::decode(data, seen) {
            lemma_counted_valid((n - 1) as nat, rest, then);
        }
    }
}

proof fn lemma_endless_valid(data: Seq<u8>, seen: Seq<Node>)
    requires
        all_wf(seen),
    ensures
        match model::decode_endless(data, seen) {
            Ok((items, rest, after)) => all_wf(items) && all_wf(after) && rest.len() <= data.len(),
            Err(_) => true,
        },
    decreases data.len(), 1int,
{
    if data.len() >= 1 && data[0] != 0x03 {
        law_read_is_valid(data, seen);
        if let Ok((v, rest, then)) = model::decode(data, seen) {
            lemma_endless_valid(rest, then);
        }
    }
}

/// Every value in `pairs` is one that a `Val` can hold.
spec fn values_wf(pairs: Seq<(Seq<char>, Node)>) -> bool {
    forall|i: int| 0 <= i < pairs.len() ==> model::wf((#[trigger] pairs[i]).1)
}

proof fn lemma_pair_valid(data: Seq<u8>, seen: Seq<Node>)
    requires
        all_wf(seen),
    ensures
        match model::decode_pair(data, seen) {
            Ok((pair, rest, after)) => model::wf(pair.1) && all_wf(after) && rest.len()
                < data.len(),
            Err(_) => true,
        },
    decreases data.len(), 1int,
{
    law_read_is_valid(data, seen);
    if let Ok((k, rest, then)) = model::decode(data, seen) {
        law_read_is_valid(rest, then);
    }
}

proof fn lemma_counted_pairs_valid(n: nat, data: Seq<u8>, seen: Seq<Node>)
    requires
        all_wf(seen),
    ensures
        match model::decode_counted_pairs(n, data, seen) {
            Ok((pairs, rest, after)) => values_wf(pairs) && all_wf(after) && rest.len()
                <= data.len(),
            Err(_) => true,
        },
    decreases data.len(), 2int,
{
    if n > 0 {
        lemma_pair_valid(data, seen);
        if let Ok((pair, rest, then)) = model::decode_pair(data, seen) {
            lemma_counted_pairs_valid((n - 1) as nat, rest, then);
        }
    }
}

proof fn lemma_endless_pairs_valid(data: Seq<u8>, seen: Seq<Node>)
    requires
        all_wf(seen),
    ensures
        match model::decode_endless_pairs(data, seen) {
            Ok((pairs, rest, after)) => values_wf(pairs) && all_wf(after) && rest.len()
                <= data.len(),
            Err(_) => true,
        },
    decreases data.len(), 2int,
{
    if data.len() >= 1 && data[0] != 0x03 {
        lemma_pair_valid(data, seen);
        if let Ok((pair, rest, then)) = model::decode_pair(data, seen) {
            lemma_endless_pairs_valid(rest, then);
        }
    }
}

proof fn lemma_put_valid(s: Seq<(Seq<char>, Node)>, key: Seq<char>, value: Node)
    requires
        values_wf(s),
        model::wf(value),
    ensures
        values_wf(strmap::put(s, key, value)),
    decreases s.len(),
{
    if s.len() > 0 && s[0].0 != key && !text::before(key, s[0].0) {
        lemma_put_valid(s.skip(1), key, value);
    }
}

proof fn lemma_gather_valid(pairs: Seq<(Seq<char>, Node)>)
    requires
        values_wf(pairs),
    ensures
        model::wf(Node::Dict(strmap::gather(pairs))),
        values_wf(strmap::gather(pairs)),
    decreases pairs.len(),
{
    strmap::lemma_gather_ascending(pairs);
    if pairs.len() > 0 {
        lemma_gather_valid(pairs.drop_last());
        lemma_put_valid(strmap::gather(pairs.drop_last()), pairs.last().0, pairs.last().1);
    }
}

// --------------------------------------------------------------------------------------------
// Size
// --------------------------------------------------------------------------------------------

/// As many bytes as a value takes at most, whatever was sent before it.
pub open spec fn bound(v: Node) -> nat
    decreases v,
{
    match v {
        Node::Str(t) => 9 + encode_utf8(t).len(),
        Node::Data(d) => 9 + d.len(),
        Node::Uuid(u) => 9 + u.len(),
        Node::Arr(items) => 9 + bound_all(items),
        Node::Dict(pairs) => 9 + bound_pairs(pairs),
        _ => 9,
    }
}

/// As many bytes as `items` take at most.
pub open spec fn bound_all(items: Seq<Node>) -> nat
    decreases items,
{
    if items.len() == 0 {
        0
    } else {
        bound(items[0]) + bound_all(items.skip(1))
    }
}

/// As many bytes as entries take at most.
pub open spec fn bound_pairs(pairs: Seq<(Seq<char>, Node)>) -> nat
    decreases pairs,
{
    if pairs.len() == 0 {
        0
    } else {
        9 + encode_utf8(pairs[0].0).len() + bound(pairs[0].1) + bound_pairs(pairs.skip(1))
    }
}

proof fn lemma_scalar_bound(v: Node, seen: Seq<Seq<u8>>)
    requires
        !v.is_collection(),
    ensures
        model::settle(model::scalar(v), seen).0.len() <= bound(v),
{
    lemma_ref_len(model::place(seen, model::scalar(v)).unwrap_or(0));
    match v {
        Node::Int(i) => {
            bytes::lemma_le_bytes_len(i as nat, 1);
            bytes::lemma_le_bytes_len(i as nat, 2);
            bytes::lemma_le_bytes_len(i as nat, 4);
            bytes::lemma_le_bytes_len(i as nat, 8);
        },
        Node::Str(t) => {
            let n = encode_utf8(t).len();
            bytes::lemma_le_bytes_len(n, 1);
            bytes::lemma_le_bytes_len(n, 2);
            bytes::lemma_le_bytes_len(n, 3);
            bytes::lemma_le_bytes_len(n, 4);
        },
        Node::Data(d) => {
            bytes::lemma_le_bytes_len(d.len(), 1);
            bytes::lemma_le_bytes_len(d.len(), 2);
            bytes::lemma_le_bytes_len(d.len(), 4);
        },
        _ => {},
    }
}

proof fn lemma_ref_len(i: nat)
    ensures
        model::ref_bytes(i).len() <= 9,
{
    bytes::lemma_le_bytes_len(i, 1);
    bytes::lemma_le_bytes_len(i, 2);
    bytes::lemma_le_bytes_len(i, 4);
    bytes::lemma_le_bytes_len(i, 8);
}

/// No value takes more bytes than its bound.
pub proof fn law_bound(v: Node, seen: Seq<Seq<u8>>)
    ensures
        model::emit(v, seen).0.len() <= bound(v),
    decreases v, 1int,
{
    if !v.is_collection() {
        lemma_scalar_bound(v, seen);
    } else {
        let (whole, after) = model::full(v, seen);
        lemma_ref_len(model::place(after, whole).unwrap_or(0));
        match v {
            Node::Arr(items) => {
                lemma_bound_all(items, seen);
            },
            Node::Dict(pairs) => {
                lemma_bound_pairs(pairs, seen);
            },
            _ => {},
        }
    }
}

proof fn lemma_bound_all(items: Seq<Node>, seen: Seq<Seq<u8>>)
    ensures
        model::emit_all(items, seen).0.len() <= bound_all(items),
    decreases items, 0int,
{
    if items.len() > 0 {
        law_bound(items[0], seen);
        lemma_bound_all(items.skip(1), model::emit(items[0], seen).1);
    }
}

proof fn lemma_bound_pairs(pairs: Seq<(Seq<char>, Node)>, seen: Seq<Seq<u8>>)
    ensures
        model::emit_pairs(pairs, seen).0.len() <= bound_pairs(pairs),
    decreases pairs, 0int,
{
    if pairs.len() > 0 {
        let key = Node::Str(pairs[0].0);
        let mid = model::settle(model::scalar(key), seen).1;
        assert(decreases_to!(pairs => pairs[0]));
        assert(decreases_to!(pairs[0] => pairs[0].1));
        lemma_scalar_bound(key, seen);
        law_bound(pairs[0].1, mid);
        lemma_bound_pairs(pairs.skip(1), model::emit(pairs[0].1, mid).1);
    }
}

/// The bound of one entry.
spec fn bound_pair(pair: (Seq<char>, Node)) -> nat {
    9 + encode_utf8(pair.0).len() + bound(pair.1)
}

proof fn lemma_bound_put(s: Seq<(Seq<char>, Node)>, key: Seq<char>, value: Node)
    ensures
        bound_pairs(strmap::put(s, key, value)) <= bound_pairs(s) + bound_pair((key, value)),
    decreases s.len(),
{
    let r = strmap::put(s, key, value);
    if s.len() == 0 {
        assert(r.skip(1) =~= s);
    } else if s[0].0 == key {
        assert(r.skip(1) =~= s.skip(1));
    } else if text::before(key, s[0].0) {
        assert(r.skip(1) =~= s);
    } else {
        lemma_bound_put(s.skip(1), key, value);
        assert(r.skip(1) =~= strmap::put(s.skip(1), key, value));
    }
}

proof fn lemma_bound_last(pairs: Seq<(Seq<char>, Node)>)
    requires
        pairs.len() > 0,
    ensures
        bound_pairs(pairs) == bound_pairs(pairs.drop_last()) + bound_pair(pairs.last()),
    decreases pairs.len(),
{
    if pairs.len() == 1 {
        assert(pairs.skip(1) =~= seq![]);
        assert(pairs.drop_last() =~= seq![]);
    } else {
        lemma_bound_last(pairs.skip(1));
        assert(pairs.drop_last().skip(1) =~= pairs.skip(1).drop_last());
        assert(pairs.skip(1).last() == pairs.last());
    }
}

/// Gathering entries makes no more of them.
pub proof fn lemma_bound_gather(pairs: Seq<(Seq<char>, Node)>)
    ensures
        bound_pairs(strmap::gather(pairs)) <= bound_pairs(pairs),
    decreases pairs.len(),
{
    if pairs.len() > 0 {
        lemma_bound_gather(pairs.drop_last());
        lemma_bound_put(strmap::gather(pairs.drop_last()), pairs.last().0, pairs.last().1);
        lemma_bound_last(pairs);
    }
}

} // verus!
