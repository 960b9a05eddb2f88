//! OPACK: Apple's serialisation format, as it is carried inside a Companion frame.
//!
//! ```text
//!   0x01 0x02        true / false
//!   0x04             null
//!   0x05 + 16        UUID
//!   0x08..=0x2F      small int, value is tag - 8
//!   0x30..=0x33      int, 1/2/4/8 bytes little-endian
//!   0x35 0x36        f32 / f64
//!   0x40..=0x60      string, length is tag - 0x40, inline
//!   0x61..=0x64      string, 1/2/3/4 length bytes
//!   0x70..=0x90      data, length is tag - 0x70, inline
//!   0x91..=0x94      data, 1/2/4/8 length bytes
//!   0xA0..=0xC0      back-reference to the n-th object seen
//!   0xC1..=0xC4      the same, with 1/2/4/8 index bytes
//!   0xD0..=0xDF      array; low nibble is the count, 0xF means read until 0x03
//!   0xE0..=0xEF      dict;  low nibble is the count, 0xF means read until 0x03
//! ```
//!
//! An object longer than one byte is appended to a table as it is encoded, and a later occurrence
//! is replaced by its index. The reader builds a table of its own by rules that differ: on
//! reading, booleans, null, small integers and collections stay out; on writing, the test is the
//! encoded length. A wrong index decodes to something, so [`laws`] says when the two agree.

pub mod laws;
pub mod model;
pub mod table;

use crate::bytes;
use crate::strmap;
use crate::strmap::StrMap;
use crate::text;
use vstd::prelude::*;
use vstd::utf8::*;

use model::Node;

verus! {

/// One OPACK value. There is no float: nothing a remote sends or reads is one. There are raw
/// byte strings, because every pairing TLV arrives as one.
#[derive(Debug)]
pub enum Val {
    Null,
    Bool(bool),
    Int(u64),
    Str(String),
    Data(Vec<u8>),
    Uuid([u8; 16]),
    Arr(Vec<Val>),
    Dict(StrMap<Val>),
}

impl View for Val {
    type V = Node;

    open spec fn view(&self) -> Node
        decreases self,
    {
        match self {
            Val::Null => Node::Null,
            Val::Bool(b) => Node::Bool(*b),
            Val::Int(i) => Node::Int(*i),
            Val::Str(t) => Node::Str(t@),
            Val::Data(d) => Node::Data(d@),
            Val::Uuid(u) => Node::Uuid(u@),
            Val::Arr(items) => Node::Arr(
                Seq::new(
                    items@.len(),
                    |i: int|
                        if 0 <= i < items@.len() {
                            items@[i].view()
                        } else {
                            Node::Null
                        },
                ),
            ),
            Val::Dict(m) => {
                proof {
                    strmap::lemma_values_smaller(*m);
                }
                Node::Dict(
                    Seq::new(
                        m.pairs().len(),
                        |i: int|
                            if 0 <= i < m.pairs().len() {
                                (m.pairs()[i].0, m.pairs()[i].1.view())
                            } else {
                                (seq![], Node::Null)
                            },
                    ),
                )
            },
        }
    }
}

/// The values of `seen` as mathematical objects.
pub open spec fn nodes(seen: Seq<Val>) -> Seq<Node> {
    Seq::new(seen.len(), |i: int| seen[i]@)
}

/// The entries of a dictionary as mathematical objects.
pub open spec fn entries(pairs: Seq<(Seq<char>, Val)>) -> Seq<(Seq<char>, Node)> {
    Seq::new(pairs.len(), |i: int| (pairs[i].0, pairs[i].1@))
}

/// A table of byte strings as mathematical objects.
pub open spec fn strings(seen: Seq<Vec<u8>>) -> Seq<Seq<u8>> {
    Seq::new(seen.len(), |i: int| seen[i]@)
}

/// The view of an array is the views of its items.
pub proof fn lemma_arr_view(v: Val)
    requires
        v is Arr,
    ensures
        v@ == Node::Arr(nodes(v->Arr_0@)),
{
    reveal_with_fuel(<Val as View>::view, 2);
    assert(v@->Arr_0 =~= nodes(v->Arr_0@));
}

/// The view of a dictionary is the views of its entries.
pub proof fn lemma_dict_view(v: Val)
    requires
        v is Dict,
    ensures
        v@ == Node::Dict(entries(v->Dict_0.pairs())),
{
    reveal_with_fuel(<Val as View>::view, 2);
    assert(v@->Dict_0 =~= entries(v->Dict_0.pairs()));
}

/// What a value stands for, kind by kind.
pub proof fn law_values_say(v: Val)
    ensures
        match v {
            Val::Null => v@ is Null,
            Val::Bool(b) => v@ == Node::Bool(b),
            Val::Int(i) => v@ == Node::Int(i),
            Val::Str(t) => v@ == Node::Str(t@),
            Val::Data(d) => v@ == Node::Data(d@),
            Val::Uuid(u) => v@ == Node::Uuid(u@),
            Val::Arr(items) => {
                &&& v@ is Arr
                &&& v@->Arr_0.len() == items@.len()
                &&& forall|i: int| 0 <= i < items@.len() ==> v@->Arr_0[i] == (#[trigger] items@[i])@
            },
            Val::Dict(m) => {
                &&& v@ is Dict
                &&& v@->Dict_0.len() == m.pairs().len()
                &&& forall|i: int|
                    0 <= i < m.pairs().len() ==> v@->Dict_0[i] == (
                        (#[trigger] m.pairs()[i]).0,
                        m.pairs()[i].1@,
                    )
            },
        },
{
    if v is Arr {
        lemma_arr_view(v);
    }
    if v is Dict {
        lemma_dict_view(v);
    }
}

/// A value is larger than each of its parts, so what recurs into the parts ends.
proof fn lemma_parts_smaller(v: Val)
    ensures
        v is Arr ==> forall|j: int|
            0 <= j < v->Arr_0@.len() ==> decreases_to!(v => #[trigger] v->Arr_0@[j]),
        v is Dict ==> forall|j: int|
            0 <= j < v->Dict_0.pairs().len() ==> decreases_to!(
                v => (#[trigger] v->Dict_0.pairs()[j]).1
            ),
{
    if v is Arr {
        assert(decreases_to!(v => v->Arr_0));
        assert(decreases_to!(v->Arr_0 => v->Arr_0@));
        assert forall|j: int| 0 <= j < v->Arr_0@.len() implies decreases_to!(
            v => #[trigger] v->Arr_0@[j]
        ) by {
            assert(decreases_to!(v->Arr_0@ => v->Arr_0@[j]));
        }
    }
    if v is Dict {
        assert(decreases_to!(v => v->Dict_0));
        strmap::lemma_values_smaller(v->Dict_0);
    }
}

/// Putting an entry in and taking the views come to the same in either order.
proof fn lemma_put_view(s: Seq<(Seq<char>, Val)>, key: Seq<char>, value: Val)
    ensures
        entries(strmap::put(s, key, value)) == strmap::put(entries(s), key, value@),
{
    let make = |v: Val| v@;
    strmap::lemma_put_mapped(s, key, value, make);
    assert(entries(s) =~= strmap::mapped(s, make));
    assert(entries(strmap::put(s, key, value)) =~= strmap::mapped(
        strmap::put(s, key, value),
        make,
    ));
}

/// Looking an entry up and taking the views come to the same in either order.
proof fn lemma_lookup_view(s: Seq<(Seq<char>, Val)>, key: Seq<char>)
    ensures
        match strmap::lookup(s, key) {
            Some(v) => strmap::lookup(entries(s), key) == Some(v@),
            None => strmap::lookup(entries(s), key) is None,
        },
    decreases s.len(),
{
    if s.len() > 0 && s[0].0 != key {
        lemma_lookup_view(s.skip(1), key);
        assert(entries(s.skip(1)) =~= entries(s).skip(1));
    }
}

impl Val {
    /// The text, if this is text.
    pub fn as_str(&self) -> (r: Option<&str>)
        ensures
            match r {
                Some(t) => self@ == Node::Str(t@),
                None => !(self@ is Str),
            },
    {
        match self {
            Val::Str(t) => Some(t.as_str()),
            _ => None,
        }
    }

    /// The bytes, if this is data.
    pub fn as_data(&self) -> (r: Option<&[u8]>)
        ensures
            match r {
                Some(d) => self@ == Node::Data(d@),
                None => !(self@ is Data),
            },
    {
        match self {
            Val::Data(d) => Some(d.as_slice()),
            _ => None,
        }
    }

    /// The number, if this is one.
    pub fn as_u64(&self) -> (r: Option<u64>)
        ensures
            match r {
                Some(i) => self@ == Node::Int(i),
                None => !(self@ is Int),
            },
    {
        match self {
            Val::Int(i) => Some(*i),
            _ => None,
        }
    }

    /// The value written for a reader: its kind, and what it holds in brackets, a dictionary as its
    /// keys and values in braces.
    pub fn debug_text(&self) -> (r: String)
        ensures
            r@ == model::render(self@),
    {
        render(self)
    }

    /// What stands under `key`, if this is a dictionary that has it.
    pub fn get(&self, key: &str) -> (r: Option<&Val>)
        ensures
            match r {
                Some(v) => self@ is Dict && strmap::lookup(self@->Dict_0, key@) == Some(v@),
                None => self@ is Dict ==> strmap::lookup(self@->Dict_0, key@) is None,
            },
    {
        match self {
            Val::Dict(m) => {
                proof {
                    lemma_dict_view(*self);
                    lemma_lookup_view(m.pairs(), key@);
                }
                m.get(key)
            },
            _ => None,
        }
    }

    /// The items, if this is an array.
    pub fn as_array(&self) -> (r: Option<&[Val]>)
        ensures
            match r {
                Some(items) => self@ == Node::Arr(nodes(items@)),
                None => !(self@ is Arr),
            },
    {
        match self {
            Val::Arr(items) => {
                proof {
                    lemma_arr_view(*self);
                }
                Some(items.as_slice())
            },
            _ => None,
        }
    }
}

/// Whether two values are the same.
fn same(a: &Val, b: &Val) -> (r: bool)
    ensures
        r == (a@ == b@),
    decreases a,
{
    match (a, b) {
        (Val::Null, Val::Null) => true,
        (Val::Bool(x), Val::Bool(y)) => *x == *y,
        (Val::Int(x), Val::Int(y)) => *x == *y,
        (Val::Str(x), Val::Str(y)) => text::same(x.as_str(), y.as_str()),
        (Val::Data(x), Val::Data(y)) => bytes::same(x.as_slice(), y.as_slice()),
        (Val::Uuid(x), Val::Uuid(y)) => bytes::same(x.as_slice(), y.as_slice()),
        (Val::Arr(x), Val::Arr(y)) => {
            proof {
                lemma_arr_view(*a);
                lemma_arr_view(*b);
                lemma_parts_smaller(*a);
                assert(nodes(x@).len() == x@.len() && nodes(y@).len() == y@.len());
            }
            if x.len() != y.len() {
                return false;
            }
            let mut i: usize = 0;
            while i < x.len()
                invariant
                    i <= x@.len(),
                    x@.len() == y@.len(),
                    *a == Val::Arr(*x),
                    forall|j: int| 0 <= j < x@.len() ==> decreases_to!(*a => #[trigger] x@[j]),
                    a@ == Node::Arr(nodes(x@)),
                    b@ == Node::Arr(nodes(y@)),
                    forall|j: int| 0 <= j < i ==> #[trigger] nodes(x@)[j] == nodes(y@)[j],
                decreases x@.len() - i,
            {
                assert(nodes(x@)[i as int] == x@[i as int]@);
                assert(nodes(y@)[i as int] == y@[i as int]@);
                if !same(&x[i], &y[i]) {
                    return false;
                }
                i += 1;
            }
            assert(nodes(x@) =~= nodes(y@));
            true
        },
        (Val::Dict(x), Val::Dict(y)) => {
            proof {
                lemma_dict_view(*a);
                lemma_dict_view(*b);
                lemma_parts_smaller(*a);
                assert(entries(x.pairs()).len() == x.pairs().len());
                assert(entries(y.pairs()).len() == y.pairs().len());
            }
            if x.len() != y.len() {
                return false;
            }
            let mut i: usize = 0;
            let ghost xs = entries(x.pairs());
            let ghost ys = entries(y.pairs());
            while i < x.len()
                invariant
                    i <= x.pairs().len(),
                    x.pairs().len() == y.pairs().len(),
                    *a == Val::Dict(*x),
                    a@ == Node::Dict(xs),
                    b@ == Node::Dict(ys),
                    xs == entries(x.pairs()),
                    ys == entries(y.pairs()),
                    forall|j: int|
                        0 <= j < x.pairs().len() ==> decreases_to!(
                            *a => (#[trigger] x.pairs()[j]).1
                        ),
                    forall|j: int| 0 <= j < i ==> #[trigger] xs[j] == ys[j],
                decreases x.pairs().len() - i,
            {
                assert(xs[i as int] == (x.pairs()[i as int].0, x.pairs()[i as int].1@));
                assert(ys[i as int] == (y.pairs()[i as int].0, y.pairs()[i as int].1@));
                if !text::same(x.key(i), y.key(i)) {
                    return false;
                }
                if !same(x.value(i), y.value(i)) {
                    return false;
                }
                i += 1;
            }
            assert(xs =~= ys);
            true
        },
        _ => false,
    }
}

impl PartialEq for Val {
    fn eq(&self, other: &Self) -> (r: bool) {
        same(self, other)
    }
}

impl vstd::std_specs::cmp::PartialEqSpecImpl for Val {
    open spec fn obeys_eq_spec() -> bool {
        true
    }

    open spec fn eq_spec(&self, other: &Self) -> bool {
        self@ == other@
    }
}

/// Another value that is the same.
fn copy(v: &Val) -> (r: Val)
    ensures
        r@ == v@,
    decreases v,
{
    match v {
        Val::Null => Val::Null,
        Val::Bool(b) => Val::Bool(*b),
        Val::Int(i) => Val::Int(*i),
        Val::Str(t) => Val::Str(t.clone()),
        Val::Data(d) => Val::Data(bytes::copy(d.as_slice())),
        Val::Uuid(u) => Val::Uuid(*u),
        Val::Arr(items) => {
            let mut out: Vec<Val> = Vec::new();
            proof {
                lemma_parts_smaller(*v);
            }
            let mut i: usize = 0;
            while i < items.len()
                invariant
                    i <= items@.len(),
                    forall|j: int|
                        0 <= j < items@.len() ==> decreases_to!(*v => #[trigger] items@[j]),
                    nodes(out@) == nodes(items@).take(i as int),
                decreases items@.len() - i,
            {
                let ghost before = out@;
                let item = copy(&items[i]);
                out.push(item);
                assert(nodes(out@) =~= nodes(before).push(item@));
                i += 1;
                assert(nodes(items@).take(i as int) =~= nodes(items@).take(i - 1).push(
                    nodes(items@)[i - 1],
                ));
            }
            assert(nodes(items@).take(items@.len() as int) =~= nodes(items@));
            let r = Val::Arr(out);
            proof {
                lemma_arr_view(*v);
                lemma_arr_view(r);
            }
            r
        },
        Val::Dict(m) => {
            let mut out: StrMap<Val> = StrMap::new();
            let mut i: usize = 0;
            let ghost all = entries(m.pairs());
            proof {
                use_type_invariant(m);
                strmap::lemma_ordered(*m);
                lemma_parts_smaller(*v);
            }
            assert(entries(out.pairs()) =~= all.take(0));
            while i < m.len()
                invariant
                    i <= m.pairs().len(),
                    all == entries(m.pairs()),
                    strmap::ascending(m.pairs()),
                    forall|j: int|
                        0 <= j < m.pairs().len() ==> decreases_to!(
                            *v => (#[trigger] m.pairs()[j]).1
                        ),
                    entries(out.pairs()) == all.take(i as int),
                decreases m.pairs().len() - i,
            {
                let ghost before = out.pairs();
                let key = m.key(i).to_string();
                let value = copy(m.value(i));
                assert forall|j: int| 0 <= j < before.len() implies text::before(
                    (#[trigger] before[j]).0,
                    key@,
                ) by {
                    assert(entries(before)[j] == all.take(i as int)[j] && entries(before).len() == i);
                    assert(before[j].0 == m.pairs()[j].0);
                }
                out.push_last(key, value);
                assert(entries(out.pairs()) =~= entries(before).push((key@, value@)));
                i += 1;
                assert(all.take(i as int) =~= all.take(i - 1).push(all[i - 1]));
            }
            assert(all.take(all.len() as int) =~= all);
            let r = Val::Dict(out);
            proof {
                lemma_dict_view(*v);
                lemma_dict_view(r);
            }
            r
        },
    }
}

impl Clone for Val {
    fn clone(&self) -> (r: Self)
        ensures
            r@ == self@,
    {
        copy(self)
    }
}

/// The keys and views of pairs.
pub open spec fn named(pairs: Seq<(&str, Val)>) -> Seq<(Seq<char>, Node)> {
    Seq::new(pairs.len(), |i: int| (pairs[i].0@, pairs[i].1@))
}

/// The dictionary of `pairs`, a later one over an earlier one.
pub open spec fn dict_of(pairs: Seq<(Seq<char>, Node)>) -> Node {
    Node::Dict(strmap::gather(pairs))
}

/// Build a dictionary without ceremony at the call site. Where a key comes twice, the later
/// entry stands.
pub fn dict<const N: usize>(pairs: [(&str, Val); N]) -> (r: Val)
    ensures
        r@ == dict_of(named(pairs@)),
{
    let pairs = pairs.as_slice();
    let mut m: StrMap<Val> = StrMap::new();
    let mut i: usize = 0;
    let ghost all = named(pairs@);
    assert(entries(m.pairs()) =~= strmap::gather(all.take(0)));
    while i < pairs.len()
        invariant
            i <= pairs@.len(),
            all == named(pairs@),
            entries(m.pairs()) == strmap::gather(all.take(i as int)),
        decreases pairs@.len() - i,
    {
        let ghost before = m.pairs();
        let key = pairs[i].0.to_string();
        let value = copy(&pairs[i].1);
        proof {
            lemma_put_view(before, key@, value);
            assert(all.take(i + 1).drop_last() =~= all.take(i as int));
            assert(all.take(i + 1).last() == (key@, value@));
        }
        m.insert(key, value);
        i += 1;
    }
    assert(all.take(all.len() as int) =~= all);
    let r = Val::Dict(m);
    proof {
        lemma_dict_view(r);
    }
    r
}

/// A text value.
pub fn s(v: &str) -> (r: Val)
    ensures
        r@ == Node::Str(v@),
{
    Val::Str(v.to_string())
}

// --------------------------------------------------------------------------------------------
// Writing
// --------------------------------------------------------------------------------------------

/// The bytes of a value. The value is read back from them exactly where every reference in them
/// comes to the same to their reader.
pub fn pack(value: &Val) -> (r: Vec<u8>)
    ensures
        r@ == model::packed(value@),
        r@ == model::wire_of(value@),
        laws::all_sayable(value@) ==> (laws::faithful(value@) <==> model::unpacked(r@) == Ok::<
            Node,
            Seq<char>,
        >(value@)),
        model::wf(value@),
{
    let mut seen: Vec<Vec<u8>> = Vec::new();
    let mut out: Vec<u8> = Vec::new();
    assert(strings(seen@) =~= seq![]);
    encode(value, &mut seen, &mut out);
    assert(out@ =~= model::packed(value@));
    proof {
        reveal(model::wire_of);
        if laws::all_sayable(value@) {
            laws::law_round_trip(value@);
        }
    }
    out
}

fn push_int(out: &mut Vec<u8>, i: u64)
    ensures
        final(out)@ == old(out)@ + model::int_bytes(i),
{
    if i < 0x28 {
        out.push(i as u8 + 8);
    } else if i <= 0xFF {
        out.push(0x30);
        bytes::push_le(out, i, 1);
    } else if i <= 0xFFFF {
        out.push(0x31);
        bytes::push_le(out, i, 2);
    } else if i <= 0xFFFF_FFFF {
        out.push(0x32);
        bytes::push_le(out, i, 4);
    } else {
        out.push(0x33);
        bytes::push_le(out, i, 8);
    }
    assert(out@ =~= old(out)@ + model::int_bytes(i));
}

fn push_str(out: &mut Vec<u8>, t: &str)
    ensures
        final(out)@ == old(out)@ + model::scalar(Node::Str(t@)),
{
    let b = t.as_bytes();
    let n: usize = b.len();
    if n <= 0x20 {
        out.push(0x40 + n as u8);
    } else if n <= 0xFF {
        out.push(0x61);
        bytes::push_le(out, n as u64, 1);
    } else if n <= 0xFFFF {
        out.push(0x62);
        bytes::push_le(out, n as u64, 2);
    } else if n <= 0xFF_FFFF {
        out.push(0x63);
        bytes::push_le(out, n as u64, 3);
    } else {
        out.push(0x64);
        bytes::push_le(out, n as u64, 4);
    }
    assert(out@ =~= old(out)@ + model::str_head(n as nat));
    bytes::append(out, b);
    assert(out@ =~= old(out)@ + model::scalar(Node::Str(t@)));
}

fn push_data(out: &mut Vec<u8>, d: &[u8])
    ensures
        final(out)@ == old(out)@ + model::scalar(Node::Data(d@)),
{
    let n: usize = d.len();
    if n <= 0x20 {
        out.push(0x70 + n as u8);
    } else if n <= 0xFF {
        out.push(0x91);
        bytes::push_le(out, n as u64, 1);
    } else if n <= 0xFFFF {
        out.push(0x92);
        bytes::push_le(out, n as u64, 2);
    } else {
        out.push(0x93);
        bytes::push_le(out, n as u64, 4);
    }
    assert(out@ =~= old(out)@ + model::data_head(n as nat));
    bytes::append(out, d);
    assert(out@ =~= old(out)@ + model::scalar(Node::Data(d@)));
}

fn push_ref(out: &mut Vec<u8>, index: usize)
    ensures
        final(out)@ == old(out)@ + model::ref_bytes(index as nat),
{
    let i: u64 = index as u64;
    if i < 0x21 {
        out.push(0xA0 + index as u8);
    } else if i <= 0xFF {
        out.push(0xC1);
        bytes::push_le(out, i, 1);
    } else if i <= 0xFFFF {
        out.push(0xC2);
        bytes::push_le(out, i, 2);
    } else if i <= 0xFFFF_FFFF {
        out.push(0xC3);
        bytes::push_le(out, i, 4);
    } else {
        out.push(0xC4);
        bytes::push_le(out, i, 8);
    }
    assert(out@ =~= old(out)@ + model::ref_bytes(index as nat));
}

/// What is found in the front of a table is found in the table.
proof fn lemma_place_stays(seen: Seq<Seq<u8>>, whole: Seq<u8>, n: int)
    requires
        0 <= n <= seen.len(),
        model::place(seen.take(n), whole) is Some,
    ensures
        model::place(seen, whole) == model::place(seen.take(n), whole),
    decreases seen.len() - n,
{
    if n < seen.len() {
        assert(seen.take(n + 1).drop_last() =~= seen.take(n));
        lemma_place_stays(seen, whole, n + 1);
    } else {
        assert(seen.take(n) =~= seen);
    }
}

fn position(seen: &Vec<Vec<u8>>, whole: &[u8]) -> (r: Option<usize>)
    ensures
        match r {
            Some(i) => model::place(strings(seen@), whole@) == Some(i as nat),
            None => model::place(strings(seen@), whole@) is None,
        },
{
    let ghost all = strings(seen@);
    let mut i: usize = 0;
    while i < seen.len()
        invariant
            i <= seen@.len(),
            all == strings(seen@),
            model::place(all.take(i as int), whole@) is None,
        decreases seen@.len() - i,
    {
        assert(all.take(i + 1).drop_last() =~= all.take(i as int));
        assert(all.take(i + 1).last() == seen@[i as int]@);
        if bytes::same(seen[i].as_slice(), whole) {
            proof {
                lemma_place_stays(all, whole@, i + 1);
            }
            return Some(i);
        }
        i += 1;
    }
    assert(all.take(all.len() as int) =~= all);
    None
}

/// Send an object whose full bytes are `whole`: its index where it was sent before. The test is
/// on the encoded bytes, which makes two equal strings one entry and keeps an integer apart from
/// a string.
fn settle(whole: Vec<u8>, seen: &mut Vec<Vec<u8>>, out: &mut Vec<u8>)
    ensures
        final(out)@ == old(out)@ + model::settle(whole@, strings(old(seen)@)).0,
        strings(final(seen)@) == model::settle(whole@, strings(old(seen)@)).1,
{
    match position(seen, whole.as_slice()) {
        Some(index) => {
            push_ref(out, index);
        },
        None => {
            bytes::append(out, whole.as_slice());
            if whole.len() > 1 {
                let ghost w = whole@;
                seen.push(whole);
                assert(strings(seen@) =~= strings(old(seen)@).push(w));
            }
        },
    }
}

/// Append what is sent for `value` after the objects in `seen`, and bring the table up to date.
/// A collection writes its parts through the same table.
fn encode(value: &Val, seen: &mut Vec<Vec<u8>>, out: &mut Vec<u8>)
    ensures
        final(out)@ == old(out)@ + model::emit(value@, strings(old(seen)@)).0,
        strings(final(seen)@) == model::emit(value@, strings(old(seen)@)).1,
        model::wf(value@),
    decreases value,
{
    let ghost at_first = strings(seen@);
    let mut body: Vec<u8> = Vec::new();
    match value {
        Val::Null => {
            body.push(0x04);
            assert(body@ =~= model::scalar(value@));
        },
        Val::Bool(b) => {
            if *b {
                body.push(0x01);
            } else {
                body.push(0x02);
            }
            assert(body@ =~= model::scalar(value@));
        },
        Val::Uuid(u) => {
            body.push(0x05);
            bytes::append(&mut body, u.as_slice());
            assert(body@ =~= model::scalar(value@));
        },
        Val::Int(i) => {
            push_int(&mut body, *i);
            assert(body@ =~= model::scalar(value@));
        },
        Val::Str(t) => {
            push_str(&mut body, t.as_str());
            assert(body@ =~= model::scalar(value@));
        },
        Val::Data(d) => {
            push_data(&mut body, d.as_slice());
            assert(body@ =~= model::scalar(value@));
        },
        Val::Arr(items) => {
            let n: usize = items.len();
            body.push(0xD0 + (if n < 0xF { n as u8 } else { 0xF }));
            let ghost all = nodes(items@);
            let ghost whole = model::emit_all(all, at_first);
            proof {
                lemma_arr_view(*value);
                lemma_parts_smaller(*value);
                assert(all.skip(0) =~= all);
                assert(body@ =~= model::open_tag(0xD0, all.len()));
                assert(body@ + whole.0 =~= model::open_tag(0xD0, all.len()) + whole.0);
            }
            let mut i: usize = 0;
            while i < items.len()
                invariant
                    i <= items@.len(),
                    all == nodes(items@),
                    forall|j: int|
                        0 <= j < items@.len() ==> decreases_to!(*value => #[trigger] items@[j]),
                    forall|j: int| 0 <= j < i ==> model::wf(#[trigger] all[j]),
                    body@ + model::emit_all(all.skip(i as int), strings(seen@)).0
                        == model::open_tag(0xD0, all.len()) + whole.0,
                    model::emit_all(all.skip(i as int), strings(seen@)).1 == whole.1,
                decreases items@.len() - i,
            {
                let ghost before = body@;
                let ghost table = strings(seen@);
                let ghost rest = all.skip(i as int);
                assert(rest[0] == items@[i as int]@);
                assert(rest.skip(1) =~= all.skip(i + 1));
                encode(&items[i], seen, &mut body);
                assert(body@ + model::emit_all(rest.skip(1), strings(seen@)).0 =~= before
                    + model::emit_all(rest, table).0);
                i += 1;
            }
            assert(all.skip(all.len() as int) =~= seq![]);
            assert(body@ =~= model::open_tag(0xD0, all.len()) + whole.0);
            if n >= 0xF {
                body.push(0x03);
            }
            assert(body@ =~= model::full(value@, at_first).0);
        },
        Val::Dict(m) => {
            let n: usize = m.len();
            body.push(0xE0 + (if n < 0xF { n as u8 } else { 0xF }));
            let ghost all = entries(m.pairs());
            let ghost whole = model::emit_pairs(all, at_first);
            proof {
                use_type_invariant(m);
                strmap::lemma_ordered(*m);
                lemma_dict_view(*value);
                lemma_parts_smaller(*value);
                assert(all.skip(0) =~= all);
                assert(body@ =~= model::open_tag(0xE0, all.len()));
                assert(body@ + whole.0 =~= model::open_tag(0xE0, all.len()) + whole.0);
                assert(strmap::ascending(all)) by {
                    assert forall|i: int, j: int| 0 <= i < j < all.len() implies text::before(
                        #[trigger] all[i].0,
                        #[trigger] all[j].0,
                    ) by {
                        assert(all[i].0 == m.pairs()[i].0);
                        assert(all[j].0 == m.pairs()[j].0);
                    }
                }
            }
            let mut i: usize = 0;
            while i < m.len()
                invariant
                    i <= m.pairs().len(),
                    all == entries(m.pairs()),
                    forall|j: int|
                        0 <= j < m.pairs().len() ==> decreases_to!(
                            *value => (#[trigger] m.pairs()[j]).1
                        ),
                    forall|j: int| 0 <= j < i ==> model::wf((#[trigger] all[j]).1),
                    body@ + model::emit_pairs(all.skip(i as int), strings(seen@)).0
                        == model::open_tag(0xE0, all.len()) + whole.0,
                    model::emit_pairs(all.skip(i as int), strings(seen@)).1 == whole.1,
                decreases m.pairs().len() - i,
            {
                let ghost before = body@;
                let ghost table = strings(seen@);
                let ghost rest = all.skip(i as int);
                assert(rest[0] == (m.pairs()[i as int].0, m.pairs()[i as int].1@));
                assert(rest.skip(1) =~= all.skip(i + 1));
                let mut key: Vec<u8> = Vec::new();
                push_str(&mut key, m.key(i));
                assert(key@ =~= model::scalar(Node::Str(rest[0].0)));
                settle(key, seen, &mut body);
                encode(m.value(i), seen, &mut body);
                assert(body@ + model::emit_pairs(rest.skip(1), strings(seen@)).0 =~= before
                    + model::emit_pairs(rest, table).0);
                i += 1;
            }
            assert(all.skip(all.len() as int) =~= seq![]);
            assert(body@ =~= model::open_tag(0xE0, all.len()) + whole.0);
            if n >= 0xF {
                body.push(0x03);
            }
            assert(body@ =~= model::full(value@, at_first).0);
        },
    }
    assert(body@ == model::full(value@, at_first).0);
    assert(strings(seen@) == model::full(value@, at_first).1);
    settle(body, seen, out);
}

// --------------------------------------------------------------------------------------------
// Reading
// --------------------------------------------------------------------------------------------

/// What a reader returns says what the model says, and a value takes at least one byte.
pub open spec fn agrees(
    r: Result<(Val, &[u8]), String>,
    seen: Seq<Val>,
    data: Seq<u8>,
    says: model::Parsed<Node>,
) -> bool {
    match (r, says) {
        (Ok((v, rest)), Ok((node, left, table))) => {
            &&& v@ == node
            &&& rest@ == left
            &&& nodes(seen) == table
            &&& left.len() < data.len()
        },
        (Err(e), Err(complaint)) => e@ == complaint,
        _ => false,
    }
}

/// The value at the front of `data`. What follows it is left alone.
pub fn unpack(data: &[u8]) -> (r: Result<Val, String>)
    ensures
        match r {
            Ok(v) => model::unpacked(data@) == Ok::<Node, Seq<char>>(v@),
            Err(e) => model::unpacked(data@) == Err::<Node, Seq<char>>(e@),
        },
        model::unpacked(data@) == model::said_by(data@),
{
    proof {
        reveal(model::said_by);
    }
    let mut seen: Vec<Val> = Vec::new();
    assert(nodes(seen@) =~= seq![]);
    match decode(data, &mut seen) {
        Ok((v, _)) => Ok(v),
        Err(e) => Err(e),
    }
}

fn wanted(n: usize, left: usize) -> (r: String)
    ensures
        r@ == model::wanted(n as nat, left as nat),
{
    let mut out = text::concat("opack: wanted ", text::decimal_text(n as u64).as_str());
    out.append(" bytes, ");
    out.append(text::decimal_text(left as u64).as_str());
    out.append(" left");
    out
}

fn past_the_end(i: usize) -> (r: String)
    ensures
        r@ == model::past_the_end(i as nat),
{
    text::concat3(
        "opack: back-reference ",
        text::decimal_text(i as u64).as_str(),
        " past the end",
    )
}

fn unknown_tag(tag: u8) -> (r: String)
    ensures
        r@ == model::unknown_tag(tag),
{
    let mut out = "opack: unknown tag 0x".to_string();
    crate::hex::push_pair(&mut out, tag);
    out
}

/// Whether `v` stands in the table.
fn known(seen: &Vec<Val>, v: &Val) -> (r: bool)
    ensures
        r == nodes(seen@).contains(v@),
{
    let mut i: usize = 0;
    while i < seen.len()
        invariant
            i <= seen@.len(),
            forall|j: int| 0 <= j < i ==> #[trigger] nodes(seen@)[j] != v@,
        decreases seen@.len() - i,
    {
        assert(nodes(seen@)[i as int] == seen@[i as int]@);
        if same(&seen[i], v) {
            return true;
        }
        i += 1;
    }
    false
}

fn remember(seen: &mut Vec<Val>, v: &Val)
    ensures
        nodes(final(seen)@) == model::remember(nodes(old(seen)@), v@),
{
    if !known(seen, v) {
        seen.push(copy(v));
        assert(nodes(seen@) =~= nodes(old(seen)@).push(v@));
    }
}

/// What the next `n` bytes are read as.
enum Kind {
    Number,
    Text,
    Bytes,
}

spec fn make(kind: Kind) -> spec_fn(Seq<u8>) -> Node {
    match kind {
        Kind::Number => model::as_int(),
        Kind::Text => model::as_text(),
        Kind::Bytes => model::as_bytes(),
    }
}

fn sized<'a>(rest: &'a [u8], n: usize, kind: Kind, seen: &mut Vec<Val>) -> (r: Result<
    (Val, &'a [u8]),
    String,
>)
    requires
        kind is Number ==> n <= 8,
    ensures
        match (r, model::sized(rest@, n as nat, nodes(old(seen)@), make(kind))) {
            (Ok((v, left)), Ok((node, after, table))) => {
                &&& v@ == node
                &&& left@ == after
                &&& nodes(final(seen)@) == table
                &&& left@.len() <= rest@.len()
            },
            (Err(e), Err(complaint)) => e@ == complaint,
            _ => false,
        },
{
    if rest.len() < n {
        return Err(wanted(n, rest.len()));
    }
    let front = bytes::front(rest, n);
    let v = match kind {
        Kind::Number => {
            let i: u64 = bytes::read_le(front);
            Val::Int(i)
        },
        Kind::Text => Val::Str(text::text_lossy(front)),
        Kind::Bytes => Val::Data(bytes::copy(front)),
    };
    remember(seen, &v);
    let left = bytes::back(rest, n);
    Ok((v, left))
}

/// A little-endian number of at most eight bytes, as far as the machine's word holds it.
fn word(s: &[u8]) -> (r: usize)
    requires
        s@.len() <= 8,
    ensures
        r == model::word(s@),
{
    let n: u64 = bytes::read_le(s);
    #[verifier::truncate]
    let w: usize = n as usize;
    w
}

fn measured<'a>(rest: &'a [u8], w: usize, kind: Kind, seen: &mut Vec<Val>) -> (r: Result<
    (Val, &'a [u8]),
    String,
>)
    requires
        w <= 8,
        !(kind is Number),
    ensures
        match (r, model::measured(rest@, w as nat, nodes(old(seen)@), make(kind))) {
            (Ok((v, left)), Ok((node, after, table))) => {
                &&& v@ == node
                &&& left@ == after
                &&& nodes(final(seen)@) == table
                &&& left@.len() <= rest@.len()
            },
            (Err(e), Err(complaint)) => e@ == complaint,
            _ => false,
        },
{
    if rest.len() < w {
        return Err(wanted(w, rest.len()));
    }
    let front = bytes::front(rest, w);
    let back = bytes::back(rest, w);
    sized(back, word(front), kind, seen)
}

fn uuid<'a>(rest: &'a [u8], seen: &mut Vec<Val>) -> (r: Result<(Val, &'a [u8]), String>)
    ensures
        match (r, model::sized(rest@, 16, nodes(old(seen)@), model::as_uuid())) {
            (Ok((v, left)), Ok((node, after, table))) => {
                &&& v@ == node
                &&& left@ == after
                &&& nodes(final(seen)@) == table
                &&& left@.len() <= rest@.len()
            },
            (Err(e), Err(complaint)) => e@ == complaint,
            _ => false,
        },
{
    if rest.len() < 16 {
        return Err(wanted(16, rest.len()));
    }
    let mut u: [u8; 16] = [0u8; 16];
    let mut i: usize = 0;
    while i < 16
        invariant
            i <= 16 <= rest@.len(),
            forall|j: int| 0 <= j < i ==> u@[j] == rest@[j],
        decreases 16 - i,
    {
        u[i] = rest[i];
        i += 1;
    }
    assert(u@ =~= rest@.take(16));
    let v = Val::Uuid(u);
    remember(seen, &v);
    let left = bytes::back(rest, 16);
    Ok((v, left))
}

fn recall<'a>(seen: &Vec<Val>, i: usize, rest: &'a [u8]) -> (r: Result<(Val, &'a [u8]), String>)
    ensures
        match (r, model::recall(nodes(seen@), i as nat, rest@)) {
            (Ok((v, left)), Ok((node, after, table))) => {
                &&& v@ == node
                &&& left@ == after
                &&& nodes(seen@) == table
                &&& left@.len() <= rest@.len()
            },
            (Err(e), Err(complaint)) => e@ == complaint,
            _ => false,
        },
{
    if i < seen.len() {
        Ok((copy(&seen[i]), rest))
    } else {
        Err(past_the_end(i))
    }
}

/// One, two, four or eight, for nought to three.
fn doubling(step: u8) -> (r: usize)
    requires
        step < 4,
    ensures
        r == model::doubling(step as int),
{
    if step == 0 {
        1
    } else if step == 1 {
        2
    } else if step == 2 {
        4
    } else {
        8
    }
}

/// `items`, and what was read after them.
spec fn joined<T>(items: Seq<T>, then: model::Parsed<Seq<T>>) -> model::Parsed<Seq<T>> {
    match then {
        Ok((rest, left, seen)) => Ok((items + rest, left, seen)),
        Err(e) => Err(e),
    }
}

proof fn lemma_joined_prepend<T>(items: Seq<T>, v: T, then: model::Parsed<Seq<T>>)
    ensures
        joined(items, model::prepend(v, then)) == joined(items.push(v), then),
{
    if then is Ok {
        assert(items + (seq![v] + then->Ok_0.0) =~= items.push(v) + then->Ok_0.0);
    }
}

proof fn lemma_joined_nothing<T>(then: model::Parsed<Seq<T>>)
    ensures
        joined(seq![], then) == then,
{
    if then is Ok {
        assert(Seq::<T>::empty() + then->Ok_0.0 =~= then->Ok_0.0);
    }
}

/// How many entries a collection says it has; none where it is endless.
spec fn limit(count: usize, endless: bool) -> Option<nat> {
    if endless {
        None
    } else {
        Some(count as nat)
    }
}

/// The items of an array: `count` of them, or up to the closing byte where there is no count.
spec fn items_in(count: Option<nat>, data: Seq<u8>, seen: Seq<Node>) -> model::Parsed<Seq<Node>> {
    match count {
        Some(n) => model::decode_counted(n, data, seen),
        None => model::decode_endless(data, seen),
    }
}

/// The entries of a dictionary: `count` of them, or up to the closing byte.
spec fn pairs_in(count: Option<nat>, data: Seq<u8>, seen: Seq<Node>) -> model::Parsed<
    Seq<(Seq<char>, Node)>,
> {
    match count {
        Some(n) => model::decode_counted_pairs(n, data, seen),
        None => model::decode_endless_pairs(data, seen),
    }
}

fn decode_items<'a>(count: usize, endless: bool, data: &'a [u8], seen: &mut Vec<Val>) -> (r: Result<
    (Vec<Val>, &'a [u8]),
    String,
>)
    ensures
        match (
            r,
            items_in(limit(count, endless), data@, nodes(old(seen)@)),
        ) {
            (Ok((items, rest)), Ok((all, left, table))) => {
                &&& nodes(items@) == all
                &&& rest@ == left
                &&& nodes(final(seen)@) == table
                &&& left.len() <= data@.len()
            },
            (Err(e), Err(complaint)) => e@ == complaint,
            _ => false,
        },
    decreases data@.len(), 1int,
{
    let mut items: Vec<Val> = Vec::new();
    let mut ptr: &'a [u8] = data;
    let mut left: usize = count;
    let ghost goal = items_in(limit(count, endless), data@, nodes(seen@));
    proof {
        assert(nodes(items@) =~= seq![]);
        lemma_joined_nothing(goal);
    }
    loop
        invariant
            ptr@.len() <= data@.len(),
            goal == items_in(limit(count, endless), data@, nodes(old(seen)@)),
            goal == joined(
                nodes(items@),
                items_in(limit(left, endless), ptr@, nodes(seen@)),
            ),
        decreases ptr@.len(),
    {
        if endless {
            if ptr.len() < 1 {
                return Err(wanted(1, 0));
            }
            if ptr[0] == 0x03 {
                let rest = bytes::back(ptr, 1);
                assert(nodes(items@) + Seq::<Node>::empty() =~= nodes(items@));
                return Ok((items, rest));
            }
        } else if left == 0 {
            assert(nodes(items@) + Seq::<Node>::empty() =~= nodes(items@));
            return Ok((items, ptr));
        }
        let ghost before = items@;
        match decode(ptr, seen) {
            Err(e) => {
                return Err(e);
            },
            Ok((v, next)) => {
                items.push(v);
                ptr = next;
                if !endless {
                    left -= 1;
                }
                proof {
                    assert(nodes(items@) =~= nodes(before).push(v@));
                    lemma_joined_prepend(
                        nodes(before),
                        v@,
                        items_in(limit(left, endless), ptr@, nodes(seen@)),
                    );
                }
            },
        }
    }
}

fn decode_entries<'a>(
    count: usize,
    endless: bool,
    data: &'a [u8],
    seen: &mut Vec<Val>,
) -> (r: Result<(StrMap<Val>, &'a [u8]), String>)
    ensures
        match (
            r,
            pairs_in(limit(count, endless), data@, nodes(old(seen)@)),
        ) {
            (Ok((m, rest)), Ok((all, left, table))) => {
                &&& entries(m.pairs()) == strmap::gather(all)
                &&& rest@ == left
                &&& nodes(final(seen)@) == table
                &&& left.len() <= data@.len()
            },
            (Err(e), Err(complaint)) => e@ == complaint,
            _ => false,
        },
    decreases data@.len(), 1int,
{
    let mut m: StrMap<Val> = StrMap::new();
    let mut ptr: &'a [u8] = data;
    let mut left: usize = count;
    let ghost mut pairs: Seq<(Seq<char>, Node)> = seq![];
    let ghost goal = pairs_in(limit(count, endless), data@, nodes(seen@));
    proof {
        assert(entries(m.pairs()) =~= strmap::gather(pairs));
        lemma_joined_nothing(goal);
    }
    loop
        invariant
            ptr@.len() <= data@.len(),
            entries(m.pairs()) == strmap::gather(pairs),
            goal == pairs_in(limit(count, endless), data@, nodes(old(seen)@)),
            goal == joined(
                pairs,
                pairs_in(limit(left, endless), ptr@, nodes(seen@)),
            ),
        decreases ptr@.len(),
    {
        if endless {
            if ptr.len() < 1 {
                return Err(wanted(1, 0));
            }
            if ptr[0] == 0x03 {
                let rest = bytes::back(ptr, 1);
                assert(pairs + Seq::<(Seq<char>, Node)>::empty() =~= pairs);
                return Ok((m, rest));
            }
        } else if left == 0 {
            assert(pairs + Seq::<(Seq<char>, Node)>::empty() =~= pairs);
            return Ok((m, ptr));
        }
        let ghost pair_says = model::decode_pair(ptr@, nodes(seen@));
        let (k, next) = match decode(ptr, seen) {
            Err(e) => {
                assert(pair_says == Err::<((Seq<char>, Node), Seq<u8>, Seq<Node>), Seq<char>>(e@));
                return Err(e);
            },
            Ok(found) => found,
        };
        let (v, next) = match decode(next, seen) {
            Err(e) => {
                assert(pair_says == Err::<((Seq<char>, Node), Seq<u8>, Seq<Node>), Seq<char>>(e@));
                return Err(e);
            },
            Ok(found) => found,
        };
        let key = key_text(k);
        let ghost pair = (key@, v@);
        proof {
            lemma_put_view(m.pairs(), key@, v);
            assert(pairs.push(pair).drop_last() =~= pairs);
        }
        m.insert(key, v);
        ptr = next;
        if !endless {
            left -= 1;
        }
        proof {
            lemma_joined_prepend(
                pairs,
                pair,
                pairs_in(limit(left, endless), ptr@, nodes(seen@)),
            );
            pairs = pairs.push(pair);
        }
    }
}

/// Read one value from the front of `data` against the table `seen`, and bring the table up to
/// date. Booleans, null, small integers and whole collections stay out of it; everything else
/// goes in once, in the order in which it was read.
fn decode<'a>(data: &'a [u8], seen: &mut Vec<Val>) -> (r: Result<(Val, &'a [u8]), String>)
    ensures
        agrees(r, final(seen)@, data@, model::decode(data@, nodes(old(seen)@))),
    decreases data@.len(), 0int,
{
    if data.len() < 1 {
        return Err(wanted(1, 0));
    }
    let tag: u8 = data[0];
    let rest = bytes::back(data, 1);
    match tag {
        0x01 => Ok((Val::Bool(true), rest)),
        0x02 => Ok((Val::Bool(false), rest)),
        0x04 => Ok((Val::Null, rest)),
        0x05 => uuid(rest, seen),
        0x08..=0x2F => Ok((Val::Int((tag - 8) as u64), rest)),
        0x30..=0x33 => sized(rest, doubling(tag - 0x30), Kind::Number, seen),
        // A float keeps its place in the stream and in the table as its bit pattern.
        0x35 => sized(rest, 4, Kind::Number, seen),
        0x36 => sized(rest, 8, Kind::Number, seen),
        0x40..=0x60 => sized(rest, (tag - 0x40) as usize, Kind::Text, seen),
        0x61..=0x64 => measured(rest, (tag - 0x60) as usize, Kind::Text, seen),
        0x70..=0x90 => sized(rest, (tag - 0x70) as usize, Kind::Bytes, seen),
        0x91..=0x94 => measured(rest, doubling(tag - 0x91), Kind::Bytes, seen),
        0xA0..=0xC0 => recall(seen, (tag - 0xA0) as usize, rest),
        0xC1..=0xC4 => {
            let w: usize = doubling(tag - 0xC1);
            if rest.len() < w {
                return Err(wanted(w, rest.len()));
            }
            let front = bytes::front(rest, w);
            let back = bytes::back(rest, w);
            recall(seen, word(front), back)
        },
        0xD0..=0xDF => {
            match decode_items((tag - 0xD0) as usize, tag == 0xDF, rest, seen) {
                Err(e) => Err(e),
                Ok((items, left)) => {
                    let v = Val::Arr(items);
                    proof {
                        lemma_arr_view(v);
                    }
                    Ok((v, left))
                },
            }
        },
        0xE0..=0xEF => {
            match decode_entries((tag - 0xE0) as usize, tag == 0xEF, rest, seen) {
                Err(e) => Err(e),
                Ok((m, left)) => {
                    let v = Val::Dict(m);
                    proof {
                        lemma_dict_view(v);
                    }
                    Ok((v, left))
                },
            }
        },
        other => Err(unknown_tag(other)),
    }
}

/// The text under which a value stands as a key. A key that is no text is legal and meaningless;
/// writing it out keeps one odd field from discarding a whole reply.
fn key_text(k: Val) -> (r: String)
    ensures
        r@ == model::key_text(k@),
{
    match k {
        Val::Str(t) => t,
        other => render(&other),
    }
}

fn render_bytes(d: &[u8]) -> (r: String)
    ensures
        r@ == model::render_bytes(d@),
{
    let mut out = String::new();
    let mut i: usize = d.len();
    assert(d@.skip(d@.len() as int) =~= seq![]);
    while i > 0
        invariant
            i <= d@.len(),
            out@ == model::render_bytes(d@.skip(i as int)),
        decreases i,
    {
        i -= 1;
        let ghost rest = d@.skip(i as int);
        assert(rest.skip(1) =~= d@.skip(i + 1));
        let mut front = text::decimal_text(d[i] as u64);
        if i + 1 < d.len() {
            front.append(", ");
            front.append(out.as_str());
            assert(front@ =~= model::render_bytes(rest));
        } else {
            assert(front@ =~= model::render_bytes(rest));
        }
        out = front;
    }
    assert(d@.skip(0) =~= d@);
    out
}

/// A value written for a reader.
fn render(v: &Val) -> (r: String)
    ensures
        r@ == model::render(v@),
    decreases v,
{
    match v {
        Val::Null => "Null".to_string(),
        Val::Bool(b) => if *b {
            "Bool(true)".to_string()
        } else {
            "Bool(false)".to_string()
        },
        Val::Int(i) => text::concat3("Int(", text::decimal_text(*i).as_str(), ")"),
        Val::Str(t) => text::concat3("Str(", text::text_quoted(t.as_str()).as_str(), ")"),
        Val::Data(d) => text::concat3("Data([", render_bytes(d.as_slice()).as_str(), "])"),
        Val::Uuid(u) => text::concat3("Uuid([", render_bytes(u.as_slice()).as_str(), "])"),
        Val::Arr(items) => {
            let ghost all = nodes(items@);
            proof {
                lemma_arr_view(*v);
                lemma_parts_smaller(*v);
            }
            let mut out = String::new();
            let mut i: usize = items.len();
            assert(all.skip(all.len() as int) =~= seq![]);
            while i > 0
                invariant
                    i <= items@.len(),
                    all == nodes(items@),
                    forall|j: int|
                        0 <= j < items@.len() ==> decreases_to!(*v => #[trigger] items@[j]),
                    out@ == model::render_all(all.skip(i as int)),
                decreases i,
            {
                i -= 1;
                let ghost rest = all.skip(i as int);
                assert(rest.skip(1) =~= all.skip(i + 1));
                assert(rest[0] == items@[i as int]@);
                let mut front = render(&items[i]);
                if i + 1 < items.len() {
                    front.append(", ");
                    front.append(out.as_str());
                    assert(front@ =~= model::render_all(rest));
                } else {
                    assert(front@ =~= model::render_all(rest));
                }
                out = front;
            }
            assert(all.skip(0) =~= all);
            text::concat3("Arr([", out.as_str(), "])")
        },
        Val::Dict(m) => {
            let ghost all = entries(m.pairs());
            proof {
                lemma_dict_view(*v);
                lemma_parts_smaller(*v);
            }
            let mut out = String::new();
            let mut i: usize = m.len();
            assert(all.skip(all.len() as int) =~= seq![]);
            while i > 0
                invariant
                    i <= m.pairs().len(),
                    all == entries(m.pairs()),
                    forall|j: int|
                        0 <= j < m.pairs().len() ==> decreases_to!(
                            *v => (#[trigger] m.pairs()[j]).1
                        ),
                    out@ == model::render_pairs(all.skip(i as int)),
                decreases i,
            {
                i -= 1;
                let ghost rest = all.skip(i as int);
                assert(rest.skip(1) =~= all.skip(i + 1));
                assert(rest[0] == (m.pairs()[i as int].0, m.pairs()[i as int].1@));
                let mut front = text::text_quoted(m.key(i));
                front.append(": ");
                front.append(render(m.value(i)).as_str());
                if i + 1 < m.len() {
                    front.append(", ");
                    front.append(out.as_str());
                    assert(front@ =~= model::render_pairs(rest));
                } else {
                    assert(front@ =~= model::render_pairs(rest));
                }
                out = front;
            }
            assert(all.skip(0) =~= all);
            text::concat3("Dict({", out.as_str(), "})")
        },
    }
}

} // verus!
