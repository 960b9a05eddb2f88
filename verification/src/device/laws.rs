//! What holds of the driver as a whole: messages that are read as what they are, taps, holds and
//! releases, and reads that come in pieces.

use crate::device;
use crate::frame;
use crate::hex;
use crate::host::{ArgsView, CallView, PropertiesView, ScratchView};
use crate::links;
use crate::opack;
use crate::opack::laws;
use crate::opack::model;
use crate::opack::model::Node;
use crate::srp;
use crate::strmap;
use crate::text;
use crate::tlv8;
use vstd::prelude::*;
use vstd::utf8::*;

verus! {

// --------------------------------------------------------------------------------------------
// Messages
// --------------------------------------------------------------------------------------------

proof fn lemma_key_lengths()
    ensures
        encode_utf8("_i"@).len() == 2,
        encode_utf8("_t"@).len() == 2,
        encode_utf8("_x"@).len() == 2,
        encode_utf8("_c"@).len() == 2,
        encode_utf8("_hBtS"@).len() == 5,
        encode_utf8("_hidC"@).len() == 5,
{
    reveal_strlit("_i");
    reveal_strlit("_t");
    reveal_strlit("_x");
    reveal_strlit("_c");
    reveal_strlit("_hBtS");
    reveal_strlit("_hidC");
    is_ascii_chars_encode_utf8("_i"@);
    is_ascii_chars_encode_utf8("_t"@);
    is_ascii_chars_encode_utf8("_x"@);
    is_ascii_chars_encode_utf8("_c"@);
    is_ascii_chars_encode_utf8("_hBtS"@);
    is_ascii_chars_encode_utf8("_hidC"@);
}

/// Two keys of an underscore and a letter stand in the order of their letters.
proof fn lemma_short_keys(a: char, b: char)
    ensures
        text::before(seq!['_', a], seq!['_', b]) == (a < b),
{
    reveal_with_fuel(text::before, 3);
    assert(seq!['_', a].skip(1) =~= seq![a]);
    assert(seq!['_', b].skip(1) =~= seq![b]);
    assert(seq![a].skip(1) =~= seq![]);
    assert(seq![b].skip(1) =~= seq![]);
}

/// The entries of a request, in the order of their keys.
pub open spec fn request_entries(name: Seq<char>, xid: u64, content: Node) -> Seq<
    (Seq<char>, Node),
> {
    seq![
        ("_c"@, content),
        ("_i"@, Node::Str(name)),
        ("_t"@, Node::Int(2)),
        ("_x"@, Node::Int(xid)),
    ]
}

proof fn lemma_key_letters()
    ensures
        "_c"@ == seq!['_', 'c'],
        "_i"@ == seq!['_', 'i'],
        "_t"@ == seq!['_', 't'],
        "_x"@ == seq!['_', 'x'],
        "_pd"@.len() == 3,
{
    reveal_strlit("_c");
    reveal_strlit("_i");
    reveal_strlit("_t");
    reveal_strlit("_x");
    reveal_strlit("_pd");
    assert("_c"@ =~= seq!['_', 'c']);
    assert("_i"@ =~= seq!['_', 'i']);
    assert("_t"@ =~= seq!['_', 't']);
    assert("_x"@ =~= seq!['_', 'x']);
}

proof fn lemma_request_entries(name: Seq<char>, xid: u64, content: Node)
    ensures
        device::request_node(name, xid, content) == Node::Dict(
            request_entries(name, xid, content),
        ),
        strmap::ascending(request_entries(name, xid, content)),
{
    lemma_key_letters();
    lemma_short_keys('c', 'i');
    lemma_short_keys('c', 't');
    lemma_short_keys('c', 'x');
    lemma_short_keys('i', 't');
    lemma_short_keys('i', 'x');
    lemma_short_keys('t', 'x');
    let i = ("_i"@, Node::Str(name));
    let t = ("_t"@, Node::Int(2));
    let x = ("_x"@, Node::Int(xid));
    let c = ("_c"@, content);
    let three = seq![i, t, x];
    assert(seq![i, t, x, c].drop_last() =~= three);
    assert(strmap::ascending(three));
    strmap::law_gather_of_ordered(three);
    assert(seq![c] + three =~= request_entries(name, xid, content));
    assert("_c"@[1] != "_i"@[1]);
}

/// What was written from place `n` on is the collection `inner` or one of `others`.
spec fn later(written: Seq<Seq<u8>>, n: nat, inner: Seq<u8>, others: Seq<Node>) -> bool {
    &&& inner.len() > 0
    &&& inner[0] >= 0xD0
    &&& forall|i: int|
        n <= i < written.len() ==> {
            ||| (#[trigger] written[i]) == inner
            ||| exists|j: int| 0 <= j < others.len() && written[i] == model::scalar(others[j])
        }
    &&& forall|j: int|
        0 <= j < others.len() ==> {
            &&& !(#[trigger] others[j]).is_collection()
            &&& model::wf(others[j])
            &&& laws::sayable(others[j])
        }
}

/// A value that is none of those that were written after the tables went out of step is heard as
/// it is, and they stay in step as far as they were.
proof fn lemma_later_is_heard(
    v: Node,
    written: Seq<Seq<u8>>,
    read: Seq<Node>,
    n: nat,
    inner: Seq<u8>,
    others: Seq<Node>,
) -> (then: Seq<Node>)
    requires
        !v.is_collection(),
        model::wf(v),
        laws::sayable(v),
        laws::in_step(written, read, n),
        later(written, n, inner, others),
        !others.contains(v),
    ensures
        laws::hear_scalar(v, written, read) == Ok::<(Node, Seq<Node>), nat>((v, then)),
        laws::in_step(model::settle(model::scalar(v), written).1, then, n),
        later(model::settle(model::scalar(v), written).1, n, inner, others.push(v)),
{
    let whole = model::scalar(v);
    let after = model::settle(whole, written).1;
    laws::lemma_scalar_shape(v);
    assert forall|i: int| n <= i < written.len() implies #[trigger] written[i] != whole by {
        if written[i] == whole {
            let j = choose|j: int|
                0 <= j < others.len() && written[i] == model::scalar(others[j]);
            laws::lemma_scalar_injective(v, others[j]);
        }
    }
    laws::lemma_is_heard(v, written, read, n);
    let more = others.push(v);
    assert forall|i: int| n <= i < after.len() implies {
        ||| (#[trigger] after[i]) == inner
        ||| exists|j: int| 0 <= j < more.len() && after[i] == model::scalar(more[j])
    } by {
        if i < written.len() {
            if written[i] != inner {
                let j = choose|j: int|
                    0 <= j < others.len() && written[i] == model::scalar(others[j]);
                assert(after[i] == model::scalar(more[j]));
            }
        } else {
            assert(after[i] == model::scalar(more[others.len() as int]));
        }
    }
    laws::hear_scalar(v, written, read)->Ok_0.1
}

/// A content that can be asked about: a flat dictionary.
pub open spec fn askable(content: Node) -> bool {
    &&& content is Dict
    &&& model::wf(content)
    &&& laws::all_sayable(content)
    &&& laws::flat(content)
    &&& laws::objects(content) < usize::MAX
}

/// The content of a request behind its key: it is heard as it is, and the tables are in step up to
/// where it stands.
proof fn lemma_content_is_heard(content: Node, written: Seq<Seq<u8>>, read: Seq<Node>) -> (then:
    Seq<Node>)
    requires
        askable(content),
        laws::level(written, read),
        written.len() <= 1,
    ensures
        laws::hear(content, written, read) == Ok::<(Node, Seq<Node>), nat>((content, then)),
        laws::in_step(model::emit(content, written).1, then, then.len()),
        later(
            model::emit(content, written).1,
            then.len(),
            model::emit(content, written).0,
            seq![],
        ),
{
    let pairs = content->Dict_0;
    laws::lemma_flat_entries(pairs, written, read);
    let then = laws::hear_pairs(pairs, written, read)->Ok_0.1;
    laws::lemma_collection_is_new(content, written, then);
    strmap::law_gather_of_ordered(pairs);
    then
}

/// A name that a request can go by: it is not empty, and none of the keys that come after it.
pub open spec fn is_name(name: Seq<char>) -> bool {
    &&& name.len() > 0
    &&& encode_utf8(name).len() <= 0xFFFF_FFFF
    &&& name != "_i"@
    &&& name != "_t"@
    &&& name != "_x"@
}

/// Every reference in a request comes to the same to its reader.
proof fn lemma_request_faithful(name: Seq<char>, xid: u64, content: Node)
    requires
        is_name(name),
        askable(content),
    ensures
        laws::faithful(device::request_node(name, xid, content)),
{
    lemma_key_lengths();
    lemma_key_letters();
    assert("_c"@[1] == 'c' && "_i"@[1] == 'i' && "_t"@[1] == 't' && "_x"@[1] == 'x');
    lemma_request_entries(name, xid, content);
    let outer = request_entries(name, xid, content);
    let (c, i, t, x) = (Node::Str("_c"@), Node::Str("_i"@), Node::Str("_t"@), Node::Str("_x"@));
    let n = Node::Str(name);
    let w0 = Seq::<Seq<u8>>::empty();
    let r0 = Seq::<Node>::empty();
    laws::lemma_plain_is_heard(c, w0, r0);
    let w1 = model::settle(model::scalar(c), w0).1;
    let r1 = laws::hear_scalar(c, w0, r0)->Ok_0.1;
    let r2 = lemma_content_is_heard(content, w1, r1);
    let (inner, w2) = model::emit(content, w1);
    let k = r2.len();
    laws::lemma_entry_is_heard(outer, w0, r0, r1, r2);
    let none = Seq::<Node>::empty();
    let r3 = lemma_later_is_heard(i, w2, r2, k, inner, none);
    let w3 = model::settle(model::scalar(i), w2).1;
    let r4 = lemma_later_is_heard(n, w3, r3, k, inner, none.push(i));
    let w4 = model::settle(model::scalar(n), w3).1;
    let one = outer.skip(1);
    assert(one[0] == ("_i"@, n));
    laws::lemma_entry_is_heard(one, w2, r2, r3, r4);
    let r5 = lemma_later_is_heard(t, w4, r4, k, inner, none.push(i).push(n));
    let w5 = model::settle(model::scalar(t), w4).1;
    let sent = none.push(i).push(n).push(t);
    let r6 = lemma_later_is_heard(Node::Int(2), w5, r5, k, inner, sent);
    assert(model::settle(model::scalar(Node::Int(2)), w5).1 == w5);
    let two = one.skip(1);
    assert(two[0] == ("_t"@, Node::Int(2)));
    laws::lemma_entry_is_heard(two, w4, r4, r5, r6);
    let r7 = lemma_later_is_heard(x, w5, r6, k, inner, sent);
    let w7 = model::settle(model::scalar(x), w5).1;
    let r8 = lemma_later_is_heard(Node::Int(xid), w7, r7, k, inner, sent.push(x));
    let w8 = model::settle(model::scalar(Node::Int(xid)), w7).1;
    let three = two.skip(1);
    assert(three[0] == ("_x"@, Node::Int(xid)));
    laws::lemma_entry_is_heard(three, w5, r6, r7, r8);
    assert(three.skip(1) =~= seq![]);
    let message = Node::Dict(outer);
    let (whole, after) = model::full(message, w0);
    assert(after == w8);
    assert(model::emit_pairs(outer, w0).0.len() >= inner.len());
    assert forall|j: int| 0 <= j < after.len() implies #[trigger] after[j] != whole by {
        if j < k {
            laws::lemma_scalar_shape(r8[j]);
        } else if after[j] != inner {
            let others = sent.push(x).push(Node::Int(xid));
            let m = choose|m: int|
                0 <= m < others.len() && after[j] == model::scalar(others[m]);
            laws::lemma_scalar_shape(others[m]);
        }
    }
    laws::lemma_place_none(after, whole);
    strmap::law_gather_of_ordered(outer);
}

/// A request can be sent.
proof fn lemma_request_valid(name: Seq<char>, xid: u64, content: Node)
    requires
        is_name(name),
        askable(content),
    ensures
        model::wf(device::request_node(name, xid, content)),
        laws::all_sayable(device::request_node(name, xid, content)),
{
    lemma_key_lengths();
    lemma_request_entries(name, xid, content);
    let outer = request_entries(name, xid, content);
    assert forall|i: int| 0 <= i < outer.len() implies model::wf((#[trigger] outer[i]).1)
        && laws::all_sayable(outer[i].1) && laws::sayable(Node::Str(outer[i].0)) by {
        assert(i == 0 || i == 1 || i == 2 || i == 3);
    }
}

/// A request about a flat content is read by the device as what it is, whatever in it is sent as a
/// reference.
pub proof fn law_request_is_heard(name: Seq<char>, xid: u64, content: Node)
    requires
        is_name(name),
        askable(content),
    ensures
        heard(device::request_node(name, xid, content)),
{
    lemma_request_valid(name, xid, content);
    lemma_request_faithful(name, xid, content);
    laws::law_round_trip(device::request_node(name, xid, content));
    reveal(model::wire_of);
    reveal(model::said_by);
}

/// What is sent for a message is read as that message.
pub open spec fn heard(message: Node) -> bool {
    model::said_by(model::wire_of(message)) == Ok::<Node, Seq<char>>(message)
}

/// Text of ASCII has a byte for each character.
proof fn lemma_literal(t: Seq<char>)
    requires
        is_ascii_chars(t),
        0 < t.len() <= 100,
    ensures
        0 < encode_utf8(t).len() <= 100,
        laws::sayable(Node::Str(t)),
        laws::plain(Node::Str(t)),
{
    is_ascii_chars_encode_utf8(t);
}

/// A button's message is read by the device as what it is.
pub proof fn law_button_is_heard(state: u64, code: u64, xid: u64)
    ensures
        heard(device::request_node("_hidC"@, xid, device::button_node(state, code))),
{
    reveal_strlit("_hBtS");
    reveal_strlit("_hidC");
    lemma_key_letters();
    lemma_literal("_hBtS"@);
    lemma_literal("_hidC"@);
    laws::lemma_gather_plain(seq![("_hBtS"@, Node::Int(state)), ("_hidC"@, Node::Int(code))]);
    law_request_is_heard("_hidC"@, xid, device::button_node(state, code));
}

/// A launch is read by the device as what it is.
pub proof fn law_launch_is_heard(launch: links::LaunchView, xid: u64)
    requires
        match launch {
            links::LaunchView::DeepLink(url) => 0 < url.len() && encode_utf8(url).len()
                <= 0xFFFF_FFFF,
            links::LaunchView::AppOnly { target, why } => 0 < target.len() && encode_utf8(
                target,
            ).len() <= 0xFFFF_FFFF,
        },
    ensures
        heard(device::request_node("_launchApp"@, xid, device::launch_node(launch))),
{
    reveal_strlit("_launchApp");
    reveal_strlit("_urlS");
    reveal_strlit("_bundleID");
    lemma_key_letters();
    lemma_literal("_launchApp"@);
    lemma_literal("_urlS"@);
    lemma_literal("_bundleID"@);
    match launch {
        links::LaunchView::DeepLink(url) => {
            laws::lemma_gather_plain(seq![("_urlS"@, Node::Str(url))]);
        },
        links::LaunchView::AppOnly { target, why } => {
            laws::lemma_gather_plain(seq![("_bundleID"@, Node::Str(target))]);
        },
    }
    law_request_is_heard("_launchApp"@, xid, device::launch_node(launch));
}

proof fn lemma_system_info_askable(client_id: Seq<u8>)
    requires
        0 < client_id.len() <= 0xFFFF_FFFF,
    ensures
        askable(device::system_info_node(client_id)),
{
    reveal_strlit("_bf");
    reveal_strlit("_cf");
    reveal_strlit("_clFl");
    reveal_strlit("_i");
    reveal_strlit("_idsID");
    reveal_strlit("_pubID");
    reveal_strlit("_sf");
    reveal_strlit("_sv");
    reveal_strlit("model");
    reveal_strlit("name");
    reveal_strlit("juno");
    reveal_strlit("170.18");
    reveal_strlit("Juno");
    lemma_literal("_bf"@);
    lemma_literal("_cf"@);
    lemma_literal("_clFl"@);
    lemma_literal("_i"@);
    lemma_literal("_idsID"@);
    lemma_literal("_pubID"@);
    lemma_literal("_sf"@);
    lemma_literal("_sv"@);
    lemma_literal("model"@);
    lemma_literal("name"@);
    lemma_literal("juno"@);
    lemma_literal("170.18"@);
    lemma_literal("Juno"@);
    let pairs = seq![
        ("_bf"@, Node::Int(0)),
        ("_cf"@, Node::Int(512)),
        ("_clFl"@, Node::Int(128)),
        ("_i"@, Node::Str("juno"@)),
        ("_idsID"@, Node::Data(client_id)),
        ("_pubID"@, Node::Str("juno"@)),
        ("_sf"@, Node::Int(256)),
        ("_sv"@, Node::Str("170.18"@)),
        ("model"@, Node::Str("Juno"@)),
        ("name"@, Node::Str("Juno"@)),
    ];
    laws::lemma_gather_plain(pairs);
}

/// What the remote asks on connecting is read by the device as what it is.
pub proof fn law_greeting_is_heard(client_id: Seq<u8>, xid: u64)
    requires
        0 < client_id.len() <= 0xFFFF_FFFF,
    ensures
        heard(device::request_node("_systemInfo"@, xid, device::system_info_node(client_id))),
        heard(device::request_node("_sessionStart"@, xid, device::session_start_node())),
        heard(
            device::request_node(
                "FetchLaunchableApplicationsEvent"@,
                xid,
                opack::dict_of(seq![]),
            ),
        ),
{
    lemma_key_letters();
    reveal_strlit("_systemInfo");
    lemma_literal("_systemInfo"@);
    lemma_system_info_askable(client_id);
    law_request_is_heard("_systemInfo"@, xid, device::system_info_node(client_id));
    reveal_strlit("_sessionStart");
    reveal_strlit("_srvT");
    reveal_strlit("com.apple.tvremoteservices");
    reveal_strlit("_sid");
    lemma_literal("_sessionStart"@);
    lemma_literal("_srvT"@);
    lemma_literal("com.apple.tvremoteservices"@);
    lemma_literal("_sid"@);
    laws::lemma_gather_plain(
        seq![
            ("_srvT"@, Node::Str("com.apple.tvremoteservices"@)),
            ("_sid"@, Node::Int(1)),
        ],
    );
    law_request_is_heard("_sessionStart"@, xid, device::session_start_node());
    reveal_strlit("FetchLaunchableApplicationsEvent");
    lemma_literal("FetchLaunchableApplicationsEvent"@);
    laws::lemma_gather_plain(seq![]);
    law_request_is_heard("FetchLaunchableApplicationsEvent"@, xid, opack::dict_of(seq![]));
}

/// A pairing message is read by the device as what it is.
pub proof fn law_pairing_frame_is_heard(tlv: Seq<u8>, flag: Seq<char>, value: u64, xid: u64)
    requires
        0 < tlv.len() <= 0xFFFF_FFFF,
        0 < flag.len(),
        encode_utf8(flag).len() <= 0xFFFF_FFFF,
    ensures
        heard(device::pairing_node(tlv, flag, value, xid)),
{
    lemma_key_letters();
    reveal_strlit("_pd");
    reveal_strlit("_x");
    lemma_literal("_pd"@);
    lemma_literal("_x"@);
    let pairs = seq![
        ("_pd"@, Node::Data(tlv)),
        (flag, Node::Int(value)),
        ("_x"@, Node::Int(xid)),
    ];
    laws::lemma_gather_plain(pairs);
    laws::law_flat_round_trip(device::pairing_node(tlv, flag, value, xid));
    reveal(model::wire_of);
    reveal(model::said_by);
}

/// Every message carries its transaction, the pairing messages too: without it the device could
/// not match a reply to it.
pub proof fn law_every_message_carries_its_transaction(
    name: Seq<char>,
    content: Node,
    tlv: Seq<u8>,
    flag: Seq<char>,
    value: u64,
    xid: u64,
)
    ensures
        strmap::lookup(device::request_node(name, xid, content)->Dict_0, "_x"@) == Some(
            Node::Int(xid),
        ),
        strmap::lookup(device::pairing_node(tlv, flag, value, xid)->Dict_0, "_x"@) == Some(
            Node::Int(xid),
        ),
        flag != "_pd"@ ==> strmap::lookup(
            device::pairing_node(tlv, flag, value, xid)->Dict_0,
            "_pd"@,
        ) == Some(Node::Data(tlv)),
{
    lemma_key_letters();
    let pd = ("_pd"@, Node::Data(tlv));
    let f = (flag, Node::Int(value));
    let x = ("_x"@, Node::Int(xid));
    let one = seq![pd];
    let two = seq![pd, f];
    assert(one.drop_last() =~= seq![]);
    assert(two.drop_last() =~= one);
    assert(seq![pd, f, x].drop_last() =~= two);
    let none = Seq::<(Seq<char>, Node)>::empty();
    assert(strmap::gather(none) =~= none);
    strmap::lemma_gather_ascending(one);
    strmap::lemma_gather_ascending(two);
    strmap::law_lookup_after_put(none, pd.0, pd.1, "_pd"@);
    strmap::law_lookup_after_put(strmap::gather(one), f.0, f.1, "_pd"@);
    strmap::law_lookup_after_put(strmap::gather(two), x.0, x.1, "_pd"@);
    let i = ("_i"@, Node::Str(name));
    let t = ("_t"@, Node::Int(2));
    let c = ("_c"@, content);
    let asked = seq![i, t, x];
    assert(asked.drop_last() =~= seq![i, t]);
    assert(seq![i, t, x, c].drop_last() =~= asked);
    strmap::lemma_gather_ascending(seq![i, t]);
    strmap::lemma_gather_ascending(asked);
    strmap::law_lookup_after_put(strmap::gather(seq![i, t]), x.0, x.1, "_x"@);
    strmap::law_lookup_after_put(strmap::gather(asked), c.0, c.1, "_x"@);
    assert("_x"@[1] != "_c"@[1]);
}

/// No two requests in a row go under the same transaction.
pub proof fn law_transactions_differ(s: ScratchView, name: Seq<char>, content: Node)
    ensures
        device::requesting(s, name, content).0.xid == Some(device::next_xid(s)),
        device::next_xid(device::requesting(s, name, content).0) != device::next_xid(s),
{
}

// --------------------------------------------------------------------------------------------
// Buttons
// --------------------------------------------------------------------------------------------

/// A button's message always fits in a frame.
proof fn lemma_button_fits(state: u64, code: u64, xid: u64)
    ensures
        model::wire_of(
            device::request_node("_hidC"@, xid, device::button_node(state, code)),
        ).len() <= 200,
{
    lemma_key_lengths();
    let inner = seq![("_hBtS"@, Node::Int(state)), ("_hidC"@, Node::Int(code))];
    let button = device::button_node(state, code);
    laws::lemma_bound_gather(inner);
    assert(inner.skip(1) =~= seq![("_hidC"@, Node::Int(code))]);
    assert(inner.skip(1).skip(1) =~= seq![]);
    assert(laws::bound_pairs(inner.skip(1).skip(1)) == 0);
    assert(laws::bound(Node::Int(state)) == 9 && laws::bound(Node::Int(code)) == 9);
    assert(laws::bound(Node::Int(2)) == 9 && laws::bound(Node::Int(xid)) == 9);
    assert(laws::bound(Node::Str("_hidC"@)) == 9 + 5);
    assert(laws::bound_pairs(inner.skip(1)) == 9 + 5 + 9);
    assert(laws::bound_pairs(inner) == 9 + 5 + 9 + 9 + 5 + 9);
    assert(laws::bound(button) <= 9 + 46);
    let outer = seq![
        ("_i"@, Node::Str("_hidC"@)),
        ("_t"@, Node::Int(2)),
        ("_x"@, Node::Int(xid)),
        ("_c"@, button),
    ];
    laws::lemma_bound_gather(outer);
    let one = outer.skip(1);
    let two = one.skip(1);
    let three = two.skip(1);
    assert(three.skip(1) =~= seq![]);
    assert(laws::bound_pairs(three.skip(1)) == 0);
    assert(three[0] == ("_c"@, button));
    assert(two[0] == ("_x"@, Node::Int(xid)));
    assert(one[0] == ("_t"@, Node::Int(2)));
    assert(laws::bound_pairs(three) == 9 + 2 + laws::bound(button));
    assert(laws::bound_pairs(two) == 9 + 2 + 9 + laws::bound_pairs(three));
    assert(laws::bound_pairs(one) == 9 + 2 + 9 + laws::bound_pairs(two));
    assert(laws::bound_pairs(outer) == 9 + 2 + (9 + 5) + laws::bound_pairs(one));
    laws::law_bound(opack::dict_of(outer), seq![]);
    reveal(model::wire_of);
}

/// A frame for the device and nothing else.
pub open spec fn one_frame(calls: Seq<CallView>) -> bool {
    calls.len() == 1 && calls[0] is Tx
}

/// Inside a session a button's message goes out as one frame, which is counted.
pub proof fn law_button_goes_out(s: ScratchView, state: u64, code: u64)
    requires
        device::session_in(s) is Some,
    ensures
        ({
            let effect = device::requesting(s, "_hidC"@, device::button_node(state, code));
            &&& one_frame(effect.1)
            &&& effect.0 == device::sent_one(
                ScratchView { xid: Some(device::next_xid(s)), ..s },
            )
            &&& device::session_in(effect.0) is Some
        }),
{
    lemma_button_fits(state, code, device::next_xid(s));
}

/// A tap is two frames: the button goes down and comes up. No key is held by it.
pub proof fn law_tap_is_two_frames(s: ScratchView, code: u64)
    requires
        device::session_in(s) is Some,
    ensures
        device::tapping(s, code).1.len() == 2,
        device::tapping(s, code).1[0] is Tx,
        device::tapping(s, code).1[1] is Tx,
        device::tapping(s, code).0.held == s.held,
        device::session_in(device::tapping(s, code).0) is Some,
{
    law_button_goes_out(s, 1, code);
    law_button_goes_out(device::pressing(s, code).0, 2, code);
}

/// A hold is one frame: the button goes down and stays down, and the device repeats on its own.
pub proof fn law_hold_is_one_frame(s: ScratchView, code: u64)
    requires
        device::session_in(s) is Some,
        s.held is None || s.held == Some(code),
    ensures
        one_frame(device::holding(s, code).1),
        device::holding(s, code).0.held == Some(code),
        device::session_in(device::holding(s, code).0) is Some,
{
    law_button_goes_out(ScratchView { held: Some(code), ..s }, 1, code);
}

/// A second hold lets go of the first: the first key comes up, and then the second goes down. At
/// most one key is ever held.
pub proof fn law_second_hold_lets_go_of_the_first(s: ScratchView, other: u64, code: u64)
    requires
        device::session_in(s) is Some,
        s.held == Some(other),
        other != code,
    ensures
        ({
            let freed = device::lifting(s, other);
            let effect = device::holding(s, code);
            &&& one_frame(freed.1)
            &&& effect.1.len() == 2
            &&& effect.1[0] == freed.1[0]
            &&& effect.1.skip(1) == device::pressing(
                ScratchView { held: Some(code), ..freed.0 },
                code,
            ).1
            &&& effect.0.held == Some(code)
        }),
{
    law_button_goes_out(s, 2, other);
    let freed = device::lifting(s, other);
    let then = ScratchView { held: Some(code), ..freed.0 };
    assert(device::session_in(then) == device::session_in(freed.0));
    law_button_goes_out(then, 1, code);
    assert(device::holding(s, code).1.skip(1) =~= device::pressing(then, code).1);
}

/// A release after a hold lets that key come up with one frame, and no key is held then. Another
/// release is silent.
pub proof fn law_release_undoes_a_hold(s: ScratchView, code: u64)
    requires
        device::session_in(s) is Some,
        s.held is None,
    ensures
        ({
            let held = device::holding(s, code).0;
            let effect = device::releasing(held);
            &&& one_frame(effect.1)
            &&& effect == device::lifting(ScratchView { held: None, ..held }, code)
            &&& effect.0.held is None
            &&& device::releasing(effect.0) == (effect.0, Seq::<CallView>::empty())
        }),
{
    law_hold_is_one_frame(s, code);
    let held = device::holding(s, code).0;
    let free = ScratchView { held: None, ..held };
    assert(device::session_in(free) == device::session_in(held));
    law_button_goes_out(free, 2, code);
}

/// Releasing nothing is no error: there is nothing to say and nothing to send.
pub proof fn law_releasing_nothing_is_quiet(s: ScratchView, args: ArgsView)
    requires
        s.held is None,
    ensures
        device::commanded(s, "release"@, args) == (s, Seq::<CallView>::empty()),
{
    reveal_strlit("release");
    reveal_strlit("launch_app");
    reveal_strlit("dpad");
    reveal_strlit("play");
    reveal_strlit("pause");
    reveal_strlit("stop");
    reveal_strlit("volume_up");
    reveal_strlit("volume_down");
    reveal_strlit("hold");
    assert("release"@.len() == 7);
    assert("launch_app"@.len() == 10);
    assert("volume_up"@.len() == 9);
    assert("volume_down"@.len() == 11);
}

// --------------------------------------------------------------------------------------------
// Commands and the session
// --------------------------------------------------------------------------------------------

/// The part of a scratch that a command leaves alone: the keys, what came in, a verification,
/// what is half-received, and the apps.
pub open spec fn same_session(a: ScratchView, b: ScratchView) -> bool {
    &&& a.write == b.write
    &&& a.read == b.read
    &&& a.received == b.received
    &&& a.verify_seed == b.verify_seed
    &&& a.buffer == b.buffer
    &&& a.bundles == b.bundles
}

proof fn lemma_requesting_keeps(s: ScratchView, name: Seq<char>, content: Node)
    ensures
        same_session(s, device::requesting(s, name, content).0),
{
}

proof fn lemma_tapping_keeps(s: ScratchView, code: u64)
    ensures
        same_session(s, device::tapping(s, code).0),
{
    let down = device::button_node(1, code);
    lemma_requesting_keeps(s, "_hidC"@, down);
    lemma_requesting_keeps(
        device::requesting(s, "_hidC"@, down).0,
        "_hidC"@,
        device::button_node(2, code),
    );
}

proof fn lemma_holding_keeps(s: ScratchView, code: u64)
    ensures
        same_session(s, device::holding(s, code).0),
{
    if s.held is Some && s.held->0 != code {
        let up = device::button_node(2, s.held->0);
        lemma_requesting_keeps(s, "_hidC"@, up);
        lemma_requesting_keeps(
            ScratchView { held: Some(code), ..device::requesting(s, "_hidC"@, up).0 },
            "_hidC"@,
            device::button_node(1, code),
        );
    } else {
        lemma_requesting_keeps(
            ScratchView { held: Some(code), ..s },
            "_hidC"@,
            device::button_node(1, code),
        );
    }
}

proof fn lemma_launching_keeps(s: ScratchView, app: Seq<char>, args: ArgsView)
    ensures
        same_session(s, device::launching(s, app, args).0),
{
    let launch = links::resolved(
        app,
        device::installed(s, app, args.launch_id),
        args.content_id,
        args.content_kind,
    );
    lemma_requesting_keeps(s, "_launchApp"@, device::launch_node(launch));
}

/// No command touches the session but for counting what it sends.
pub proof fn law_commands_keep_the_session(s: ScratchView, cmd: Seq<char>, args: ArgsView)
    ensures
        same_session(s, device::commanded(s, cmd, args).0),
{
    assert forall|code: u64| same_session(s, #[trigger] device::tapping(s, code).0) by {
        lemma_tapping_keeps(s, code);
    }
    if args.app is Some {
        lemma_launching_keeps(s, args.app->0, args);
    }
    if args.what is Some && device::held_code(args.what->0) is Some {
        lemma_holding_keeps(s, device::held_code(args.what->0)->0);
    }
    if s.held is Some {
        lemma_requesting_keeps(
            ScratchView { held: None, ..s },
            "_hidC"@,
            device::button_node(2, s.held->0),
        );
    }
}

/// Nothing for the device.
pub open spec fn no_frames(calls: Seq<CallView>) -> bool {
    forall|i: int| 0 <= i < calls.len() ==> !(#[trigger] calls[i] is Tx)
}

/// Until a session is open, no command sends anything.
pub proof fn law_nothing_is_sent_without_a_session(s: ScratchView, cmd: Seq<char>, args: ArgsView)
    requires
        device::session_in(s) is None,
    ensures
        no_frames(device::commanded(s, cmd, args).1),
{
    law_commands_keep_the_session(s, cmd, args);
    assert forall|t: ScratchView, name: Seq<char>, content: Node|
        t.write == s.write && t.read == s.read implies {
        let effect = #[trigger] device::requesting(t, name, content);
        no_frames(effect.1) && effect.0.write == s.write && effect.0.read == s.read
    } by {
        assert(device::session_in(t) is None);
    }
    assert forall|t: ScratchView, code: u64|
        t.write == s.write && t.read == s.read implies no_frames(
        (#[trigger] device::tapping(t, code)).1,
    ) by {
        let down = device::pressing(t, code);
        assert(no_frames(down.1));
        assert(no_frames(device::lifting(down.0, code).1));
    }
    if args.what is Some && device::held_code(args.what->0) is Some {
        let code = device::held_code(args.what->0)->0;
        if s.held is Some {
            assert(no_frames(device::lifting(s, s.held->0).1));
        }
    }
}

/// A verification that is refused is never passed over in silence: it is said why, and the
/// session is forgotten.
pub proof fn law_refused_verification_is_said(s: ScratchView, client_id: Seq<u8>, why: Seq<char>)
    ensures
        device::settling(s, client_id, Err(why)) == (
            device::cleared(s),
            seq![device::complaint(why)],
        ),
        device::session_in(device::settling(s, client_id, Err(why)).0) is None,
{
}

// --------------------------------------------------------------------------------------------
// Reads
// --------------------------------------------------------------------------------------------

/// While a frame is incomplete it is kept, and nothing else changes: no counter moves.
pub proof fn law_partial_read_waits(p: PropertiesView, s: ScratchView, chunk: Seq<u8>)
    requires
        !frame::complete(device::held_over(s) + chunk),
    ensures
        device::reading(p, s, chunk) == (
            ScratchView { buffer: Some(hex::hex_of(device::held_over(s) + chunk)), ..s },
            Seq::<CallView>::empty(),
        ),
        device::held_over(device::reading(p, s, chunk).0) == device::held_over(s) + chunk,
{
    hex::law_hex_round_trip(device::held_over(s) + chunk);
}

/// The same but for what is half-received.
pub open spec fn alike(a: ScratchView, b: ScratchView) -> bool {
    ScratchView { buffer: None, ..a } == (ScratchView { buffer: None, ..b })
}

/// Two effects that are the same but for what is half-received.
pub open spec fn effects_alike(a: device::Effect, b: device::Effect) -> bool {
    alike(a.0, b.0) && a.1 == b.1
}

proof fn lemma_requesting_alike(a: ScratchView, b: ScratchView, name: Seq<char>, content: Node)
    requires
        alike(a, b),
    ensures
        effects_alike(
            device::requesting(a, name, content),
            device::requesting(b, name, content),
        ),
{
    assert(device::session_in(a) == device::session_in(b));
}

proof fn lemma_greeting_alike(a: ScratchView, b: ScratchView, client_id: Seq<u8>)
    requires
        alike(a, b),
    ensures
        effects_alike(device::greeting(a, client_id), device::greeting(b, client_id)),
{
    let info = device::system_info_node(client_id);
    lemma_requesting_alike(a, b, "_systemInfo"@, info);
    let a1 = device::requesting(a, "_systemInfo"@, info).0;
    let b1 = device::requesting(b, "_systemInfo"@, info).0;
    let start = device::session_start_node();
    lemma_requesting_alike(a1, b1, "_sessionStart"@, start);
    let a2 = device::requesting(a1, "_sessionStart"@, start).0;
    let b2 = device::requesting(b1, "_sessionStart"@, start).0;
    lemma_requesting_alike(
        a2,
        b2,
        "FetchLaunchableApplicationsEvent"@,
        opack::dict_of(seq![]),
    );
}

proof fn lemma_arrived_alike(
    p: PropertiesView,
    a: ScratchView,
    b: ScratchView,
    kind: u8,
    payload: Seq<u8>,
)
    requires
        alike(a, b),
    ensures
        effects_alike(
            device::arrived(p, a, kind, payload),
            device::arrived(p, b, kind, payload),
        ),
{
    if let Ok(message) = model::said_by(payload) {
        if let Some(pd) = device::data_under(message, "_pd"@) {
            let items = tlv8::decoded(pd);
            if let (Some(theirs), Some(encrypted), Some(pairing), Some(seed)) = (
                tlv8::lookup(items, tlv8::PUBLIC_KEY),
                tlv8::lookup(items, tlv8::ENCRYPTED_DATA),
                device::pairing_in(p),
                device::key_bytes(a.verify_seed),
            ) {
                let outcome = srp::verified(
                    seed,
                    crate::crypto::x25519_public(seed),
                    pairing,
                    theirs,
                    encrypted,
                );
                if let Ok((tlv, write, read)) = outcome {
                    lemma_greeting_alike(
                        device::opened(a, write, read),
                        device::opened(b, write, read),
                        pairing.client_id,
                    );
                }
            }
        }
    }
}

/// What is half-received has no part in what frames come to.
proof fn lemma_consumed_alike(p: PropertiesView, a: ScratchView, b: ScratchView, buffer: Seq<u8>)
    requires
        alike(a, b),
    ensures
        effects_alike(
            device::consumed(p, a, buffer).0,
            device::consumed(p, b, buffer).0,
        ),
        device::consumed(p, a, buffer).1 == device::consumed(p, b, buffer).1,
    decreases buffer.len(),
{
    if frame::complete(buffer) {
        assert(device::session_in(a) == device::session_in(b));
        let session = device::session_in(a);
        if let Ok((kind, payload)) = frame::read(buffer, read_key(a), read_counter(a)) {
            let counted_a = if session is Some && payload.len() > 0 {
                device::received_one(a)
            } else {
                a
            };
            let counted_b = if session is Some && payload.len() > 0 {
                device::received_one(b)
            } else {
                b
            };
            lemma_arrived_alike(p, counted_a, counted_b, kind, payload);
            lemma_consumed_alike(
                p,
                device::arrived(p, counted_a, kind, payload).0,
                device::arrived(p, counted_b, kind, payload).0,
                frame::left(buffer),
            );
        }
    }
}

/// The key that frames are read with.
pub open spec fn read_key(s: ScratchView) -> Option<Seq<u8>> {
    match device::session_in(s) {
        Some(session) => Some(session.read),
        None => None,
    }
}

/// The counter that the next frame is read with.
pub open spec fn read_counter(s: ScratchView) -> u64 {
    match device::session_in(s) {
        Some(session) => session.received,
        None => 0,
    }
}

/// Every whole frame in `buffer` opens.
pub open spec fn in_step(p: PropertiesView, s: ScratchView, buffer: Seq<u8>) -> bool
    decreases buffer.len(),
{
    frame::complete(buffer) ==> match frame::read(buffer, read_key(s), read_counter(s)) {
        Err(_) => false,
        Ok((kind, payload)) => {
            let counted = if device::session_in(s) is Some && payload.len() > 0 {
                device::received_one(s)
            } else {
                s
            };
            in_step(p, device::arrived(p, counted, kind, payload).0, frame::left(buffer))
        },
    }
}

/// Reading on where the front of a buffer has been read.
#[verifier::rlimit(30)]
#[verifier::spinoff_prover]
proof fn lemma_consumed_more(p: PropertiesView, s: ScratchView, front: Seq<u8>, more: Seq<u8>)
    requires
        in_step(p, s, front),
    ensures
        ({
            let (one, rest) = device::consumed(p, s, front);
            let (two, last) = device::consumed(p, one.0, rest + more);
            device::consumed(p, s, front + more) == (device::and_then(one, two), last)
        }),
    decreases front.len(),
{
    let whole = front + more;
    if frame::complete(front) {
        let session = device::session_in(s);
        assert(frame::declared(whole) == frame::declared(front));
        let n = frame::HEADER + frame::declared(front);
        assert(whole.subrange(frame::HEADER as int, n) =~= front.subrange(
            frame::HEADER as int,
            n,
        ));
        assert(whole.take(frame::HEADER as int) =~= front.take(frame::HEADER as int));
        assert(frame::read(whole, read_key(s), read_counter(s)) == frame::read(
            front,
            read_key(s),
            read_counter(s),
        ));
        assert(frame::left(whole) =~= frame::left(front) + more);
        if let Ok((kind, payload)) = frame::read(front, read_key(s), read_counter(s)) {
            let counted = if session is Some && payload.len() > 0 {
                device::received_one(s)
            } else {
                s
            };
            let now = device::arrived(p, counted, kind, payload);
            lemma_consumed_more(p, now.0, frame::left(front), more);
            let (one, rest) = device::consumed(p, now.0, frame::left(front));
            let (two, last) = device::consumed(p, one.0, rest + more);
            assert(now.1 + (one.1 + two.1) =~= (now.1 + one.1) + two.1);
        }
    } else {
        let none = Seq::<CallView>::empty();
        let (two, last) = device::consumed(p, s, whole);
        assert(none + two.1 =~= two.1);
    }
}

/// A read in two pieces is the same as one read: whatever the cut, the same frames are acted on
/// in the same order, with the same counters, and the same is left over. A frame that does not
/// open ends a read, so the first piece holds none.
pub proof fn law_split_reads_are_one(
    p: PropertiesView,
    s: ScratchView,
    first: Seq<u8>,
    second: Seq<u8>,
)
    requires
        in_step(p, s, device::held_over(s) + first),
    ensures
        device::reading(p, s, first + second) == device::and_then(
            device::reading(p, s, first),
            device::reading(p, device::reading(p, s, first).0, second),
        ),
{
    let front = device::held_over(s) + first;
    lemma_consumed_more(p, s, front, second);
    let (one, rest) = device::consumed(p, s, front);
    let mid = device::reading(p, s, first).0;
    hex::law_hex_round_trip(rest);
    assert(device::held_over(mid) == rest);
    assert(device::held_over(s) + (first + second) =~= front + second);
    lemma_consumed_alike(p, one.0, mid, rest + second);
}

} // verus!
